//! The compact game-progress encoding and the transition function.

use vstd::prelude::*;
use crate::board::{
    SquareSet, bit64, lemma_bit64_and, lemma_bit64_or, lemma_bit64_single, lemma_popcount_clear, lemma_popcount_low_mask,
    popcount,
};
use crate::engine::{capturable_spec, captures, permeable_spec, reach_spec};
use crate::pieces::{PieceType, capture_steps_spec};
use crate::puzzle::Puzzle;

verus! {

/// Mask of the 27 low bits of a progress state, which hold the set of piece
/// indices still to be captured.
pub const REMAINING_MASK: u32 = 0x07ff_ffff;

/// True when bit `i` of the 32-bit mask `m` is set.
pub open spec fn bit32(m: u32, i: u32) -> bool {
    i < 32 && (m >> i) & 1u32 == 1u32
}

/// The remaining-capture mask of a packed progress state.
pub open spec fn remaining_spec(s: u32) -> u32 {
    s & REMAINING_MASK
}

/// The index of the piece the player currently controls.
pub open spec fn in_hand_spec(s: u32) -> u32 {
    s >> 27u32
}

/// A progress state is valid for a puzzle when the in-hand index names a
/// piece of the puzzle, every remaining bit names a piece, and the in-hand
/// piece's own bit is clear: a piece never has to capture itself.
pub open spec fn valid_state(p: Puzzle, s: u32) -> bool {
    &&& (in_hand_spec(s) as int) < p.num_pieces()
    &&& forall|j: u32| bit32(remaining_spec(s), j) ==> (j as int) < p.num_pieces()
    &&& !bit32(remaining_spec(s), in_hand_spec(s))
}

/// The squares of the pieces with index below `k` whose bit is set in `rem`.
pub open spec fn targets_upto(p: Puzzle, rem: u32, k: int) -> u64
    decreases k,
{
    if k <= 0 {
        0u64
    } else {
        targets_upto(p, rem, k - 1) | (if bit32(rem, (k - 1) as u32) {
            1u64 << (p.piece_locs@[k - 1] as u64)
        } else {
            0u64
        })
    }
}

/// The squares of every piece still to be captured.
pub open spec fn targets_spec(p: Puzzle, rem: u32) -> u64 {
    targets_upto(p, rem, p.num_pieces())
}

/// A square is a target exactly when a remaining piece stands on it.
pub proof fn lemma_targets_upto_bit(p: Puzzle, rem: u32, k: int, sq: u64)
    requires
        p.wf(),
        0 <= k <= p.num_pieces(),
    ensures
        bit64(targets_upto(p, rem, k), sq) <==> exists|i: int|
            0 <= i < k && bit32(rem, i as u32) && p.piece_locs@[i] as u64 == sq,
    decreases k,
{
    if k == 0 {
        assert(!bit64(0u64, sq)) by (bit_vector);
    } else {
        lemma_targets_upto_bit(p, rem, k - 1, sq);
        let prev = targets_upto(p, rem, k - 1);
        if bit32(rem, (k - 1) as u32) {
            let l = p.piece_locs@[k - 1] as u64;
            lemma_bit64_or(prev, 1u64 << l, sq);
            lemma_bit64_single(l, sq);
            if bit64(targets_upto(p, rem, k), sq) {
                if bit64(1u64 << l, sq) {
                    assert(bit32(rem, (k - 1) as u32) && p.piece_locs@[k - 1] as u64 == sq);
                }
            }
            if exists|i: int| 0 <= i < k && bit32(rem, i as u32) && p.piece_locs@[i] as u64 == sq {
                let i = choose|i: int|
                    0 <= i < k && bit32(rem, i as u32) && p.piece_locs@[i] as u64 == sq;
                if i < k - 1 {
                    assert(bit64(prev, sq));
                }
            }
        } else {
            assert(prev | 0u64 == prev) by (bit_vector);
            assert forall|i: int|
                0 <= i < k && bit32(rem, i as u32) && p.piece_locs@[i] as u64
                    == sq implies bit64(prev, sq) by {
                assert(i != k - 1);
            }
        }
    }
}

/// The kind of the piece the player controls in state `s`.
pub open spec fn in_hand_kind(p: Puzzle, s: u32) -> PieceType {
    p.piece_types@[in_hand_spec(s) as int]
}

/// The square of the piece the player controls in state `s`.
pub open spec fn in_hand_square(p: Puzzle, s: u32) -> u64 {
    p.piece_locs@[in_hand_spec(s) as int] as u64
}

/// The squares the in-hand piece can capture on from state `s`.
#[verifier::opaque]
pub open spec fn capturable_from(p: Puzzle, s: u32) -> u64 {
    capturable_spec(
        in_hand_kind(p, s),
        1u64 << in_hand_square(p, s),
        p.obstacles.0,
        targets_spec(p, remaining_spec(s)),
    )
}

/// The state after capturing piece `j` from state `s`: bit `j` leaves the
/// remaining mask and piece `j` becomes the in-hand piece.
pub open spec fn succ_of(s: u32, j: u32) -> u32 {
    (remaining_spec(s) & !(1u32 << j)) | (j << 27u32)
}

/// In state `s` the player can capture piece `j`: the piece is still
/// remaining and its square is capturable by the in-hand piece.
pub open spec fn step_capturing(p: Puzzle, s: u32, j: u32) -> bool {
    &&& (j as int) < p.num_pieces()
    &&& bit32(remaining_spec(s), j)
    &&& bit64(capturable_from(p, s), p.piece_locs@[j as int] as u64)
}

/// `t` is a legal successor of `s`: some capturable remaining piece `j`
/// is captured.
pub open spec fn step_spec(p: Puzzle, s: u32, t: u32) -> bool {
    exists|j: u32| step_capturing(p, s, j) && t == succ_of(s, j)
}

/// How the two packed fields of a successor state relate to its parts.
proof fn lemma_succ_fields(s: u32, j: u32)
    by (bit_vector)
    requires
        j < 27,
    ensures
        (((s & 0x07ff_ffffu32) & !(1u32 << j)) | (j << 27u32)) >> 27u32 == j,
        (((s & 0x07ff_ffffu32) & !(1u32 << j)) | (j << 27u32)) & 0x07ff_ffffu32 == (s
            & 0x07ff_ffffu32) & !(1u32 << j),
        forall|i: u32|
            ((((s & 0x07ff_ffffu32) & !(1u32 << j)) >> i) & 1u32 == 1u32) ==> (((s
                & 0x07ff_ffffu32) >> i) & 1u32 == 1u32),
        ((((s & 0x07ff_ffffu32) & !(1u32 << j)) >> j) & 1u32) == 0u32,
{
}

/// Capturing a legal piece `j` yields a valid state again: piece `j` is in
/// hand, its bit has left the remaining mask, and nothing else changed.
pub proof fn lemma_succ_state(p: Puzzle, s: u32, j: u32)
    requires
        p.wf(),
        valid_state(p, s),
        (j as int) < p.num_pieces(),
        bit32(remaining_spec(s), j),
    ensures
        in_hand_spec(succ_of(s, j)) == j,
        remaining_spec(succ_of(s, j)) == remaining_spec(s) & !(1u32 << j),
        valid_state(p, succ_of(s, j)),
{
    lemma_succ_fields(s, j);
    let t = succ_of(s, j);
    assert forall|i: u32| bit32(remaining_spec(t), i) implies (i as int) < p.num_pieces() by {
        assert(bit32(remaining_spec(s), i));
    }
    assert(!bit32(remaining_spec(t), j));
}

/// A legal step leads to a valid state again (the in-hand piece's bit is
/// never in the remaining mask), and removes exactly one piece from the
/// remaining mask.
pub proof fn lemma_step_preserves_valid(p: Puzzle, s: u32, t: u32)
    requires
        p.wf(),
        valid_state(p, s),
        step_spec(p, s, t),
    ensures
        valid_state(p, t),
        popcount(remaining_spec(t) as u64) + 1 == popcount(remaining_spec(s) as u64),
{
    let j = choose|j: u32| step_capturing(p, s, j) && t == succ_of(s, j);
    lemma_succ_state(p, s, j);
    lemma_succ_fields(s, j);
    let rem = remaining_spec(s);
    assert((rem & !(1u32 << j)) as u64 == (rem as u64) & !(1u64 << (j as u64))) by (bit_vector)
        requires
            j < 27,
    ;
    assert(bit64(rem as u64, j as u64)) by (bit_vector)
        requires
            j < 27,
            (rem >> j) & 1u32 == 1u32,
    ;
    lemma_popcount_clear(rem as u64, j as u64);
}

/// A capturable square always carries a remaining piece, found through the
/// inverse square-to-piece map.
proof fn lemma_capturable_square_is_piece(p: Puzzle, s: u32, sq: u64)
    requires
        p.wf(),
        valid_state(p, s),
        bit64(capturable_from(p, s), sq),
    ensures
        sq < 64,
        (p.pieces_by_loc@[sq as int] as int) < p.num_pieces(),
        p.piece_locs@[p.pieces_by_loc@[sq as int] as int] as u64 == sq,
        step_capturing(p, s, p.pieces_by_loc@[sq as int] as u32),
{
    reveal(capturable_from);
    let rem = remaining_spec(s);
    let tg = targets_spec(p, rem);
    let cst = capture_steps_spec(
        in_hand_kind(p, s),
        reach_spec(in_hand_kind(p, s), 1u64 << in_hand_square(p, s), permeable_spec(p.obstacles.0, tg)),
    );
    assert(capturable_from(p, s) == cst & tg);
    lemma_bit64_and(cst, tg, sq);
    lemma_targets_upto_bit(p, rem, p.num_pieces(), sq);
    let i = choose|i: int| 0 <= i < p.num_pieces() && bit32(rem, i as u32) && p.piece_locs@[i] as u64 == sq;
    assert(p.piece_locs@[i] as int == sq as int);
    assert(p.pieces_by_loc@[sq as int] == i as u8);
}

/// The packed progress state: bits 0 through 26 mark which pieces still need
/// to be captured, and bits 27 through 31 hold the index of the piece the
/// player currently controls.
///
/// The initial state for a puzzle with `n` pieces and player piece `ps` is
/// `(((1 << n) - 1) & !(1 << ps)) | (ps << 27)`.
#[derive(Debug, Copy, Clone, PartialEq, Eq, Hash, Structural)]
pub struct PuzzleState(pub u32);

/// The packed initial state of a puzzle: every piece but the player's own
/// remains to be captured, and the player's piece is in hand.
pub open spec fn initial_spec(p: Puzzle) -> u32 {
    ((((1u32 << (p.num_pieces() as u32)) - 1) as u32) & !(1u32 << p.player_start)) | (p.player_start
        << 27u32)
}

proof fn lemma_initial_fields(n: u32, ps: u32)
    by (bit_vector)
    requires
        ps < n,
        n <= 27,
    ensures
        (((((1u32 << n) - 1) as u32) & !(1u32 << ps)) | (ps << 27u32)) >> 27u32 == ps,
        (((((1u32 << n) - 1) as u32) & !(1u32 << ps)) | (ps << 27u32)) & 0x07ff_ffffu32 == ((((1u32
            << n) - 1) as u32) & !(1u32 << ps)),
        forall|j: u32|
            (#[trigger] (((((1u32 << n) - 1) as u32) & !(1u32 << ps)) >> j) & 1u32 == 1u32) == (j
                < n && j != ps),
{
}

/// The initial state of a well-formed puzzle is valid, and the number of
/// pieces left to capture is one less than the piece count.
pub proof fn lemma_initial_valid(p: Puzzle)
    requires
        p.wf(),
    ensures
        valid_state(p, initial_spec(p)),
        popcount(remaining_spec(initial_spec(p)) as u64) == p.num_pieces() - 1,
{
    let n = p.num_pieces() as u32;
    let ps = p.player_start;
    lemma_initial_fields(n, ps);
    let s0 = initial_spec(p);
    assert(in_hand_spec(s0) == ps);
    assert forall|j: u32| bit32(remaining_spec(s0), j) implies (j as int) < p.num_pieces() by {
        assert((((((1u32 << n) - 1) as u32) & !(1u32 << ps)) >> j) & 1u32 == 1u32);
    }
    assert(!bit32(remaining_spec(s0), ps));
    let rem0 = remaining_spec(s0);
    let mask64 = ((1u64 << (n as u64)) - 1) as u64;
    assert(rem0 as u64 == mask64 & !(1u64 << (ps as u64)) && bit64(mask64, ps as u64))
        by (bit_vector)
        requires
            ps < n,
            n <= 27,
            rem0 == ((((1u32 << n) - 1) as u32) & !(1u32 << ps)),
            mask64 == ((1u64 << (n as u64)) - 1) as u64,
    ;
    lemma_popcount_low_mask(n as u64);
    lemma_popcount_clear(mask64, ps as u64);
}

/// A state with nothing left to capture has no successor.
pub proof fn lemma_no_step_from_done(p: Puzzle, s: u32, t: u32)
    requires
        remaining_spec(s) == 0,
    ensures
        !step_spec(p, s, t),
{
    assert forall|j: u32| !bit32(remaining_spec(s), j) by {
        assert((0u32 >> j) & 1u32 == 0u32) by (bit_vector);
    }
}

impl PuzzleState {
    /// Computes the initial state for a puzzle.
    pub fn initial(p: &Puzzle) -> (r: Self)
        requires
            p.wf(),
        ensures
            r.0 == initial_spec(*p),
            valid_state(*p, r.0),
            forall|j: u32|
                bit32(remaining_spec(r.0), j) == ((j as int) < p.num_pieces() && j
                    != p.player_start),
    {
        let n = p.piece_locs.len() as u32;
        proof {
            lemma_initial_fields(n, p.player_start);
            assert(1u32 << n >= 1) by (bit_vector)
                requires
                    n <= 27,
            ;
        }
        let to_capture = ((1u32 << n) - 1) & !(1u32 << p.player_start);
        PuzzleState(to_capture | (p.player_start << 27u32))
    }

    /// Checks whether the player has won: all opposing pieces are captured.
    pub fn done(self) -> (b: bool)
        ensures
            b == (remaining_spec(self.0) == 0),
    {
        self.0 & REMAINING_MASK == 0
    }

    /// The index of the piece the player currently controls.
    pub fn current_piece_idx(self) -> (i: u32)
        ensures
            i == in_hand_spec(self.0),
    {
        self.0 >> 27u32
    }

    /// The mask of piece indices that still need to be captured.
    pub fn remaining_captures(self) -> (m: u32)
        ensures
            m == remaining_spec(self.0),
    {
        self.0 & REMAINING_MASK
    }

    /// Every successor of this state: one state per capturable remaining
    /// piece, with no duplicates and none missing.  The captured piece of a
    /// successor is its in-hand index.
    pub fn next_states(self, p: &Puzzle) -> (succs: Vec<PuzzleState>)
        requires
            p.wf(),
            valid_state(*p, self.0),
        ensures
            forall|k: int| 0 <= k < succs@.len() ==> step_spec(*p, self.0, #[trigger] succs@[k].0),
            forall|k: int| 0 <= k < succs@.len() ==> valid_state(*p, #[trigger] succs@[k].0),
            forall|t: u32|
                step_spec(*p, self.0, t) ==> exists|k: int|
                    0 <= k < succs@.len() && succs@[k].0 == t,
            forall|k1: int, k2: int|
                0 <= k1 < k2 < succs@.len() ==> succs@[k1].0 != succs@[k2].0,
    {
        let player = self.current_piece_idx() as usize;
        let kind = p.piece_types[player];
        let loc = p.piece_locs[player];
        let start = SquareSet::single(loc);
        let rem = self.remaining_captures();
        let n = p.piece_locs.len();
        let mut targets: u64 = 0;
        let mut idx: usize = 0;
        while idx < n
            invariant
                idx <= n,
                n == p.num_pieces(),
                p.wf(),
                rem == remaining_spec(self.0),
                targets == targets_upto(*p, rem, idx as int),
            decreases n - idx,
        {
            if (rem >> (idx as u32)) & 1u32 == 1u32 {
                targets = targets | (1u64 << (p.piece_locs[idx] as u64));
            } else {
                proof {
                    let tu = targets_upto(*p, rem, idx as int);
                    assert(tu | 0u64 == tu) by (bit_vector);
                }
            }
            idx = idx + 1;
        }
        let caps = captures(kind, start, p.obstacles, SquareSet(targets));
        proof {
            reveal(capturable_from);
            assert(caps.0 == capturable_from(*p, self.0));
        }
        let mut succs: Vec<PuzzleState> = Vec::new();
        let mut sq: u8 = 0;
        while sq < 64
            invariant
                sq <= 64,
                p.wf(),
                valid_state(*p, self.0),
                caps.0 == capturable_from(*p, self.0),
                rem == remaining_spec(self.0),
                succs_sound(*p, self.0, succs@, sq as int),
                succs_complete(*p, self.0, succs@, sq as int),
                succs_all_valid(*p, succs@),
                succs_distinct(succs@),
            decreases 64 - sq as int,
        {
            if (caps.0 >> (sq as u64)) & 1u64 == 1u64 {
                proof {
                    lemma_capturable_square_is_piece(*p, self.0, sq as u64);
                }
                let j = p.pieces_by_loc[sq as usize];
                proof {
                    lemma_succ_state(*p, self.0, j as u32);
                }
                let new_rem = rem & !(1u32 << (j as u32));
                let ns = PuzzleState(new_rem | ((j as u32) << 27u32));
                let ghost pre = succs@;
                succs.push(ns);
                proof {
                    assert(ns.0 == succ_of(self.0, j as u32));
                    assert(succs@ == pre.push(ns));
                    lemma_succs_step_hit(*p, self.0, pre, sq as int, j as u32);
                }
            } else {
                proof {
                    lemma_succs_step_miss(*p, self.0, succs@, sq as int, caps.0);
                }
            }
            sq = sq + 1;
        }
        proof {
            lemma_succs_finish(*p, self.0, succs@);
        }
        succs
    }
}

/// `st` is the state after capturing some piece that stands on a square
/// below `sq`.
pub open spec fn is_succ_below(p: Puzzle, s: u32, st: PuzzleState, sq: int) -> bool {
    exists|j: u32|
        step_capturing(p, s, j) && st.0 == succ_of(s, j) && (p.piece_locs@[j as int] as int) < sq
}

/// The sequence holds a state whose packed value is `t`.
pub open spec fn contains_state(succs: Seq<PuzzleState>, t: u32) -> bool {
    exists|k: int| 0 <= k < succs.len() && succs[k].0 == t
}

/// Every collected successor comes from capturing a piece on a square
/// already scanned.
pub open spec fn succs_sound(p: Puzzle, s: u32, succs: Seq<PuzzleState>, sq: int) -> bool {
    forall|k: int| 0 <= k < succs.len() ==> is_succ_below(p, s, #[trigger] succs[k], sq)
}

/// Every capture on a square already scanned has been collected.
pub open spec fn succs_complete(p: Puzzle, s: u32, succs: Seq<PuzzleState>, sq: int) -> bool {
    forall|j: u32|
        #[trigger] step_capturing(p, s, j) && (p.piece_locs@[j as int] as int) < sq
            ==> contains_state(succs, succ_of(s, j))
}

/// Every collected successor is a valid state.
pub open spec fn succs_all_valid(p: Puzzle, succs: Seq<PuzzleState>) -> bool {
    forall|k: int| 0 <= k < succs.len() ==> valid_state(p, #[trigger] succs[k].0)
}

/// No successor state is collected twice.
pub open spec fn succs_distinct(succs: Seq<PuzzleState>) -> bool {
    forall|k1: int, k2: int| 0 <= k1 < k2 < succs.len() ==> succs[k1].0 != succs[k2].0
}

proof fn lemma_is_succ_below_weaken(p: Puzzle, s: u32, st: PuzzleState, sq1: int, sq2: int)
    requires
        is_succ_below(p, s, st, sq1),
        sq1 <= sq2,
    ensures
        is_succ_below(p, s, st, sq2),
{
    let j = choose|j: u32|
        step_capturing(p, s, j) && st.0 == succ_of(s, j) && (p.piece_locs@[j as int] as int) < sq1;
    assert(step_capturing(p, s, j) && st.0 == succ_of(s, j) && (p.piece_locs@[j as int] as int)
        < sq2);
}

proof fn lemma_contains_push(succs: Seq<PuzzleState>, x: PuzzleState, t: u32)
    requires
        contains_state(succs, t),
    ensures
        contains_state(succs.push(x), t),
{
    let k = choose|k: int| 0 <= k < succs.len() && succs[k].0 == t;
    assert(succs.push(x)[k].0 == t);
}

proof fn lemma_succs_step_miss(p: Puzzle, s: u32, succs: Seq<PuzzleState>, sq: int, caps: u64)
    requires
        p.wf(),
        valid_state(p, s),
        0 <= sq < 64,
        succs_sound(p, s, succs, sq),
        succs_complete(p, s, succs, sq),
        caps == capturable_from(p, s),
        !bit64(caps, sq as u64),
    ensures
        succs_sound(p, s, succs, sq + 1),
        succs_complete(p, s, succs, sq + 1),
{
    assert forall|k: int| 0 <= k < succs.len() implies is_succ_below(
        p,
        s,
        #[trigger] succs[k],
        sq + 1,
    ) by {
        lemma_is_succ_below_weaken(p, s, succs[k], sq, sq + 1);
    }
    assert forall|j: u32|
        #[trigger] step_capturing(p, s, j) && (p.piece_locs@[j as int] as int) < sq
            + 1 implies contains_state(succs, succ_of(s, j)) by {
        assert((p.piece_locs@[j as int] as int) != sq);
    }
}

proof fn lemma_succs_step_hit(p: Puzzle, s: u32, pre: Seq<PuzzleState>, sq: int, j: u32)
    requires
        p.wf(),
        valid_state(p, s),
        0 <= sq < 64,
        succs_sound(p, s, pre, sq),
        succs_complete(p, s, pre, sq),
        succs_all_valid(p, pre),
        succs_distinct(pre),
        step_capturing(p, s, j),
        p.piece_locs@[j as int] as int == sq,
        p.pieces_by_loc@[sq] == j as u8,
    ensures
        succs_sound(p, s, pre.push(PuzzleState(succ_of(s, j))), sq + 1),
        succs_complete(p, s, pre.push(PuzzleState(succ_of(s, j))), sq + 1),
        succs_all_valid(p, pre.push(PuzzleState(succ_of(s, j)))),
        succs_distinct(pre.push(PuzzleState(succ_of(s, j)))),
{
    let ns = PuzzleState(succ_of(s, j));
    let post = pre.push(ns);
    lemma_succ_state(p, s, j);
    assert(is_succ_below(p, s, ns, sq + 1));
    assert forall|k: int| 0 <= k < post.len() implies is_succ_below(
        p,
        s,
        #[trigger] post[k],
        sq + 1,
    ) by {
        if k < pre.len() {
            assert(post[k] == pre[k]);
            lemma_is_succ_below_weaken(p, s, pre[k], sq, sq + 1);
        } else {
            assert(post[k] == ns);
        }
    }
    assert forall|j3: u32|
        #[trigger] step_capturing(p, s, j3) && (p.piece_locs@[j3 as int] as int) < sq
            + 1 implies contains_state(post, succ_of(s, j3)) by {
        if (p.piece_locs@[j3 as int] as int) == sq {
            assert(p.pieces_by_loc@[sq] == j3 as u8);
            assert(j3 == j);
            assert(post[pre.len() as int].0 == succ_of(s, j3));
        } else {
            lemma_contains_push(pre, ns, succ_of(s, j3));
        }
    }
    assert forall|k: int| 0 <= k < post.len() implies valid_state(p, #[trigger] post[k].0) by {
        if k < pre.len() {
            assert(post[k] == pre[k]);
            assert(valid_state(p, pre[k].0));
        } else {
            assert(post[k] == ns);
        }
    }
    assert forall|k1: int, k2: int| 0 <= k1 < k2 < post.len() implies post[k1].0 != post[k2].0 by {
        if k2 < pre.len() {
            assert(pre[k1].0 != pre[k2].0);
        } else {
            assert(post[k1] == pre[k1]);
            let j2 = choose|j2: u32|
                step_capturing(p, s, j2) && pre[k1].0 == succ_of(s, j2) && (p.piece_locs@[j2
                    as int] as int) < sq;
            lemma_succ_state(p, s, j2);
            assert(in_hand_spec(pre[k1].0) == j2);
            assert(in_hand_spec(ns.0) == j);
            assert(j2 != j);
        }
    }
}

proof fn lemma_succs_finish(p: Puzzle, s: u32, succs: Seq<PuzzleState>)
    requires
        p.wf(),
        valid_state(p, s),
        succs_sound(p, s, succs, 64),
        succs_complete(p, s, succs, 64),
    ensures
        forall|k: int| 0 <= k < succs.len() ==> step_spec(p, s, #[trigger] succs[k].0),
        forall|t: u32|
            step_spec(p, s, t) ==> exists|k: int| 0 <= k < succs.len() && succs[k].0 == t,
{
    assert forall|k: int| 0 <= k < succs.len() implies step_spec(p, s, #[trigger] succs[k].0) by {
        assert(is_succ_below(p, s, succs[k], 64));
        let j = choose|j: u32|
            step_capturing(p, s, j) && succs[k].0 == succ_of(s, j) && (p.piece_locs@[j
                as int] as int) < 64;
        assert(step_capturing(p, s, j) && succs[k].0 == succ_of(s, j));
    }
    assert forall|t: u32| step_spec(p, s, t) implies exists|k: int|
        0 <= k < succs.len() && succs[k].0 == t by {
        let j = choose|j: u32| step_capturing(p, s, j) && t == succ_of(s, j);
        assert(p.piece_locs@[j as int] < 64);
        assert(contains_state(succs, succ_of(s, j)));
        let k0 = choose|k: int| 0 <= k < succs.len() && succs[k].0 == succ_of(s, j);
        assert(succs[k0].0 == t);
    }
}

} // verus!
