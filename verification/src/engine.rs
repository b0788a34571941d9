//! The reachability engine: which targets can a piece capture after any
//! number of slide steps followed by exactly one capture step?

use vstd::prelude::*;
use crate::board::{
    SquareSet, bit64, lemma_bit64_and, lemma_bit64_or, lemma_bit64_subset, lemma_popcount_bound,
    lemma_popcount_strict_subset, popcount,
};
use crate::pieces::{
    PieceType, capture_steps_spec, lemma_move_steps_monotone, move_steps_spec, pawn_capture_spec,
};

verus! {

/// Squares a sliding piece may pass through or rest on: anything that is
/// neither an obstacle nor a target.
pub open spec fn permeable_spec(obstacles: u64, targets: u64) -> u64 {
    !(obstacles | targets)
}

/// The squares reachable from `from` by at most `n` slide steps of a piece of
/// kind `kind`, never leaving the squares of `perm`.
pub open spec fn slide_closure(kind: PieceType, from: u64, perm: u64, n: nat) -> u64
    decreases n,
{
    if n == 0 {
        from & perm
    } else {
        let prev = slide_closure(kind, from, perm, (n - 1) as nat);
        (prev | move_steps_spec(kind, prev)) & perm
    }
}

/// The squares reachable from `from` by any number of slide steps within
/// `perm`.  Every step either adds a square or adds nothing ever after, and
/// there are only 64 squares, so 64 steps saturate the closure.
pub open spec fn reach_spec(kind: PieceType, from: u64, perm: u64) -> u64 {
    slide_closure(kind, from, perm, 64)
}

/// The squares of `targets` that a piece of kind `kind`, starting on some
/// square of `from`, can capture: the piece slides any number of steps
/// through squares that are neither obstacles nor targets, then performs
/// exactly one capture step onto a target square.
pub open spec fn capturable_spec(kind: PieceType, from: u64, obstacles: u64, targets: u64) -> u64 {
    capture_steps_spec(kind, reach_spec(kind, from, permeable_spec(obstacles, targets))) & targets
}

/// The slide closure stays inside the permeable squares.
proof fn lemma_closure_in_perm(kind: PieceType, from: u64, perm: u64, n: nat)
    ensures
        slide_closure(kind, from, perm, n) & perm == slide_closure(kind, from, perm, n),
    decreases n,
{
    let c = slide_closure(kind, from, perm, n);
    if n == 0 {
        assert((from & perm) & perm == from & perm) by (bit_vector);
    } else {
        let prev = slide_closure(kind, from, perm, (n - 1) as nat);
        let s = move_steps_spec(kind, prev);
        assert(((prev | s) & perm) & perm == (prev | s) & perm) by (bit_vector);
        assert(c == (prev | s) & perm);
    }
}

/// One more slide step never loses a square.
proof fn lemma_closure_grows(kind: PieceType, from: u64, perm: u64, n: nat)
    ensures
        slide_closure(kind, from, perm, n) & slide_closure(kind, from, perm, n + 1)
            == slide_closure(kind, from, perm, n),
{
    let c = slide_closure(kind, from, perm, n);
    let s = move_steps_spec(kind, c);
    lemma_closure_in_perm(kind, from, perm, n);
    assert(c & ((c | s) & perm) == c) by (bit_vector)
        requires
            c & perm == c,
    ;
}

/// The slide closure only grows with the step count.
pub proof fn lemma_closure_grows_to(kind: PieceType, from: u64, perm: u64, m: nat, n: nat)
    requires
        m <= n,
    ensures
        slide_closure(kind, from, perm, m) & slide_closure(kind, from, perm, n) == slide_closure(
            kind,
            from,
            perm,
            m,
        ),
    decreases n,
{
    let cm = slide_closure(kind, from, perm, m);
    if m == n {
        assert(cm & cm == cm) by (bit_vector);
    } else {
        let prev = slide_closure(kind, from, perm, (n - 1) as nat);
        let cn = slide_closure(kind, from, perm, n);
        lemma_closure_grows_to(kind, from, perm, m, (n - 1) as nat);
        lemma_closure_grows(kind, from, perm, (n - 1) as nat);
        assert(cm & cn == cm) by (bit_vector)
            requires
                cm & prev == cm,
                prev & cn == prev,
        ;
    }
}

/// Once one slide step adds no square, no later step does either.
proof fn lemma_closure_stationary(kind: PieceType, from: u64, perm: u64, k: nat, n: nat)
    requires
        slide_closure(kind, from, perm, k + 1) == slide_closure(kind, from, perm, k),
        k <= n,
    ensures
        slide_closure(kind, from, perm, n) == slide_closure(kind, from, perm, k),
    decreases n,
{
    if n > k {
        lemma_closure_stationary(kind, from, perm, k, (n - 1) as nat);
    }
}

/// The slide closure is monotone in both the starting squares and the
/// permeable squares.
pub proof fn lemma_closure_monotone(
    kind: PieceType,
    from1: u64,
    perm1: u64,
    from2: u64,
    perm2: u64,
    n: nat,
)
    requires
        from1 & from2 == from1,
        perm1 & perm2 == perm1,
    ensures
        slide_closure(kind, from1, perm1, n) & slide_closure(kind, from2, perm2, n)
            == slide_closure(kind, from1, perm1, n),
    decreases n,
{
    if n == 0 {
        assert((from1 & perm1) & (from2 & perm2) == from1 & perm1) by (bit_vector)
            requires
                from1 & from2 == from1,
                perm1 & perm2 == perm1,
        ;
    } else {
        let prev1 = slide_closure(kind, from1, perm1, (n - 1) as nat);
        let prev2 = slide_closure(kind, from2, perm2, (n - 1) as nat);
        lemma_closure_monotone(kind, from1, perm1, from2, perm2, (n - 1) as nat);
        lemma_move_steps_monotone(kind, prev1, prev2);
        let s1 = move_steps_spec(kind, prev1);
        let s2 = move_steps_spec(kind, prev2);
        assert(((prev1 | s1) & perm1) & ((prev2 | s2) & perm2) == (prev1 | s1) & perm1)
            by (bit_vector)
            requires
                prev1 & prev2 == prev1,
                s1 & s2 == s1,
                perm1 & perm2 == perm1,
        ;
    }
}

/// Adding obstacles never lets a piece capture more: every square capturable
/// under the larger obstacle set is capturable under the smaller one.
pub proof fn lemma_capturable_obstacles_monotone(
    kind: PieceType,
    from: u64,
    obs1: u64,
    obs2: u64,
    targets: u64,
)
    requires
        obs1 & obs2 == obs1,
    ensures
        capturable_spec(kind, from, obs2, targets) & capturable_spec(kind, from, obs1, targets)
            == capturable_spec(kind, from, obs2, targets),
{
    let perm1 = permeable_spec(obs1, targets);
    let perm2 = permeable_spec(obs2, targets);
    assert(perm2 & perm1 == perm2) by (bit_vector)
        requires
            obs1 & obs2 == obs1,
            perm1 == !(obs1 | targets),
            perm2 == !(obs2 | targets),
    ;
    assert(from & from == from) by (bit_vector);
    lemma_closure_monotone(kind, from, perm2, from, perm1, 64);
    let r1 = reach_spec(kind, from, perm1);
    let r2 = reach_spec(kind, from, perm2);
    lemma_move_steps_monotone(kind, r2, r1);
    let c1 = capture_steps_spec(kind, r1);
    let c2 = capture_steps_spec(kind, r2);
    assert((c2 & targets) & (c1 & targets) == c2 & targets) by (bit_vector)
        requires
            c2 & c1 == c2,
    ;
}

/// Adding target squares never loses a capture that did not slide through
/// the added squares: treating the added targets as obstacles instead, every
/// capturable square stays capturable under the enlarged target set.
pub proof fn lemma_capturable_targets_monotone(
    kind: PieceType,
    from: u64,
    obstacles: u64,
    tg1: u64,
    tg2: u64,
)
    requires
        tg1 & tg2 == tg1,
    ensures
        capturable_spec(kind, from, obstacles | (tg2 & !tg1), tg1) & capturable_spec(
            kind,
            from,
            obstacles,
            tg2,
        ) == capturable_spec(kind, from, obstacles | (tg2 & !tg1), tg1),
{
    let obs1 = obstacles | (tg2 & !tg1);
    let perm1 = permeable_spec(obs1, tg1);
    let perm2 = permeable_spec(obstacles, tg2);
    assert(perm1 == perm2) by (bit_vector)
        requires
            tg1 & tg2 == tg1,
            perm1 == !((obstacles | (tg2 & !tg1)) | tg1),
            perm2 == !(obstacles | tg2),
    ;
    let c = capture_steps_spec(kind, reach_spec(kind, from, perm1));
    assert((c & tg1) & (c & tg2) == c & tg1) by (bit_vector)
        requires
            tg1 & tg2 == tg1,
    ;
}

/// For a kind whose slide and capture steps coincide, aiming at exactly the
/// squares one step away (with no obstacles, from squares that cannot step
/// onto each other) captures exactly those squares: the piece never needs to
/// slide first.
pub proof fn lemma_coinciding_steps_capture_step_set(kind: PieceType, from: u64)
    requires
        kind != PieceType::Pawn,
        from & move_steps_spec(kind, from) == 0,
    ensures
        capturable_spec(kind, from, 0, move_steps_spec(kind, from)) == move_steps_spec(kind, from),
{
    let t = move_steps_spec(kind, from);
    let perm = permeable_spec(0, t);
    assert(perm == !t) by (bit_vector)
        requires
            perm == !(0u64 | t),
    ;
    assert(from & perm == from) by (bit_vector)
        requires
            from & t == 0,
            perm == !t,
    ;
    assert(slide_closure(kind, from, perm, 0) == from);
    let s0 = move_steps_spec(kind, from);
    assert(slide_closure(kind, from, perm, 1) == (from | s0) & perm);
    assert((from | s0) & perm == from) by (bit_vector)
        requires
            from & t == 0,
            perm == !t,
            s0 == t,
    ;
    lemma_closure_stationary(kind, from, perm, 0, 64);
    assert(reach_spec(kind, from, perm) == from);
    assert(capture_steps_spec(kind, from) == t);
    assert(t & t == t) by (bit_vector);
}

/// A lone pawn can never capture on its own file; in particular the square
/// directly ahead of it is never capturable, whatever the obstacles and
/// targets are.
pub proof fn lemma_pawn_never_captures_straight(s: u64, obstacles: u64, targets: u64)
    requires
        s < 64,
    ensures
        forall|t: u64|
            t < 64 && t % 8 == s % 8 ==> !bit64(
                capturable_spec(PieceType::Pawn, 1u64 << s, obstacles, targets),
                t,
            ),
{
    let f = s % 8;
    let perm = permeable_spec(obstacles, targets);
    lemma_pawn_closure_in_file(s, perm, 64);
    let r = reach_spec(PieceType::Pawn, 1u64 << s, perm);
    let cap = capture_steps_spec(PieceType::Pawn, r);
    assert(cap == pawn_capture_spec(r));
    assert(pawn_capture_spec(r) & (0x0101_0101_0101_0101u64 << f) == 0) by (bit_vector)
        requires
            f == s % 8,
            s < 64,
            r & (0x0101_0101_0101_0101u64 << f) == r,
    ;
    let result = capturable_spec(PieceType::Pawn, 1u64 << s, obstacles, targets);
    assert forall|t: u64| t < 64 && t % 8 == s % 8 implies !bit64(result, t) by {
        lemma_bit64_and(cap, targets, t);
        assert(!bit64(cap, t)) by (bit_vector)
            requires
                cap & (0x0101_0101_0101_0101u64 << (s % 8)) == 0,
                t < 64,
                t % 8 == s % 8,
                s < 64,
        ;
    }
}

/// The slide closure of a lone pawn stays on the pawn's own file.
proof fn lemma_pawn_closure_in_file(s: u64, perm: u64, n: nat)
    requires
        s < 64,
    ensures
        slide_closure(PieceType::Pawn, 1u64 << s, perm, n) & (0x0101_0101_0101_0101u64 << (s % 8))
            == slide_closure(PieceType::Pawn, 1u64 << s, perm, n),
    decreases n,
{
    if n == 0 {
        assert(((1u64 << s) & perm) & (0x0101_0101_0101_0101u64 << (s % 8)) == (1u64 << s) & perm)
            by (bit_vector)
            requires
                s < 64,
        ;
    } else {
        lemma_pawn_closure_in_file(s, perm, (n - 1) as nat);
        let prev = slide_closure(PieceType::Pawn, 1u64 << s, perm, (n - 1) as nat);
        let m = move_steps_spec(PieceType::Pawn, prev);
        assert(m == prev << 8u64);
        assert(((prev | (prev << 8u64)) & perm) & (0x0101_0101_0101_0101u64 << (s % 8)) == (prev | (
        prev << 8u64)) & perm) by (bit_vector)
            requires
                s < 64,
                prev & (0x0101_0101_0101_0101u64 << (s % 8)) == prev,
        ;
    }
}

/// An unobstructed pawn does capture on both forward diagonals: if the pawn's
/// own square is free of obstacles and targets and a target stands on a
/// forward diagonal, that diagonal is capturable.
pub proof fn lemma_pawn_diagonal_captures(s: u64, obstacles: u64, targets: u64)
    requires
        s < 64,
        !bit64(obstacles, s),
        !bit64(targets, s),
    ensures
        s % 8 != 0 && bit64(targets, (s + 7) as u64) ==> bit64(
            capturable_spec(PieceType::Pawn, 1u64 << s, obstacles, targets),
            (s + 7) as u64,
        ),
        s % 8 != 7 && bit64(targets, (s + 9) as u64) ==> bit64(
            capturable_spec(PieceType::Pawn, 1u64 << s, obstacles, targets),
            (s + 9) as u64,
        ),
{
    let perm = permeable_spec(obstacles, targets);
    assert((1u64 << s) & perm == 1u64 << s) by (bit_vector)
        requires
            s < 64,
            !bit64(obstacles, s),
            !bit64(targets, s),
            perm == !(obstacles | targets),
    ;
    lemma_closure_grows_to(PieceType::Pawn, 1u64 << s, perm, 0, 64);
    let r = reach_spec(PieceType::Pawn, 1u64 << s, perm);
    assert((1u64 << s) & r == 1u64 << s);
    lemma_move_steps_monotone(PieceType::Pawn, 1u64 << s, r);
    let cap_one = pawn_capture_spec(1u64 << s);
    let cap = capture_steps_spec(PieceType::Pawn, r);
    assert(cap == pawn_capture_spec(r));
    assert(cap_one & cap == cap_one);
    if s % 8 != 0 && bit64(targets, (s + 7) as u64) {
        assert(bit64(cap_one, (s + 7) as u64)) by (bit_vector)
            requires
                s < 64,
                s % 8 != 0,
                s + 7 < 64,
                cap_one == pawn_capture_spec(1u64 << s),
        ;
        lemma_bit64_subset(cap_one, cap, (s + 7) as u64);
        lemma_bit64_and(cap, targets, (s + 7) as u64);
    }
    if s % 8 != 7 && bit64(targets, (s + 9) as u64) {
        assert(bit64(cap_one, (s + 9) as u64)) by (bit_vector)
            requires
                s < 64,
                s % 8 != 7,
                s + 9 < 64,
                cap_one == pawn_capture_spec(1u64 << s),
        ;
        lemma_bit64_subset(cap_one, cap, (s + 9) as u64);
        lemma_bit64_and(cap, targets, (s + 9) as u64);
    }
}

/// Either one more slide step changes nothing, or the closure has gained at
/// least one square per step so far.
proof fn lemma_closure_progress(kind: PieceType, from: u64, perm: u64, n: nat)
    requires
        n <= 64,
    ensures
        slide_closure(kind, from, perm, n + 1) == slide_closure(kind, from, perm, n) || popcount(
            slide_closure(kind, from, perm, n),
        ) >= n,
    decreases n,
{
    if n > 0 {
        lemma_closure_progress(kind, from, perm, (n - 1) as nat);
        let prev = slide_closure(kind, from, perm, (n - 1) as nat);
        let cur = slide_closure(kind, from, perm, n);
        if cur == prev {
            lemma_closure_stationary(kind, from, perm, (n - 1) as nat, n + 1);
        } else {
            lemma_closure_grows(kind, from, perm, (n - 1) as nat);
            lemma_popcount_strict_subset(prev, cur);
        }
    }
}

/// After 64 steps the slide closure never grows again: there are only 64
/// squares, and an unsaturated closure gains at least one per step.
pub proof fn lemma_closure_complete(kind: PieceType, from: u64, perm: u64, n: nat)
    requires
        n >= 64,
    ensures
        slide_closure(kind, from, perm, n) == reach_spec(kind, from, perm),
    decreases n,
{
    lemma_closure_progress(kind, from, perm, 64);
    let c64 = slide_closure(kind, from, perm, 64);
    let c65 = slide_closure(kind, from, perm, 65);
    if c65 != c64 {
        lemma_closure_grows(kind, from, perm, 64);
        lemma_popcount_strict_subset(c64, c65);
        lemma_popcount_bound(c65);
        assert(false);
    }
    lemma_closure_stationary(kind, from, perm, 64, n);
}

/// A square whose bit is set, taken as a singleton set, is a subset.
proof fn lemma_bit64_single_subset(m: u64, s: u64)
    by (bit_vector)
    requires
        bit64(m, s),
    ensures
        (1u64 << s) & m == 1u64 << s,
{
}

/// `path` is a walk the piece can slide along: every square is permeable,
/// and each next square is one slide step from the previous one.
pub open spec fn slide_path(kind: PieceType, from: u64, perm: u64, path: Seq<u64>) -> bool {
    &&& path.len() >= 1
    &&& bit64(from, path[0])
    &&& forall|i: int| 0 <= i < path.len() ==> bit64(perm, #[trigger] path[i])
    &&& forall|i: int|
        0 <= i < path.len() - 1 ==> bit64(
            move_steps_spec(kind, 1u64 << #[trigger] path[i]),
            path[i + 1],
        )
}

/// Every square a slide path can walk to lies in the slide closure.
proof fn lemma_path_in_closure(kind: PieceType, from: u64, perm: u64, path: Seq<u64>)
    requires
        slide_path(kind, from, perm, path),
    ensures
        bit64(
            slide_closure(kind, from, perm, (path.len() - 1) as nat),
            path[path.len() - 1],
        ),
    decreases path.len(),
{
    if path.len() == 1 {
        lemma_bit64_and(from, perm, path[0]);
    } else {
        let head = path.drop_last();
        assert(slide_path(kind, from, perm, head)) by {
            assert forall|i: int| 0 <= i < head.len() implies bit64(
                perm,
                #[trigger] head[i],
            ) by {
                assert(head[i] == path[i]);
            }
            assert forall|i: int| 0 <= i < head.len() - 1 implies bit64(
                move_steps_spec(kind, 1u64 << #[trigger] head[i]),
                head[i + 1],
            ) by {
                assert(head[i] == path[i] && head[i + 1] == path[i + 1]);
            }
        }
        lemma_path_in_closure(kind, from, perm, head);
        let s = path[path.len() - 2];
        let t = path[path.len() - 1];
        let c = slide_closure(kind, from, perm, (path.len() - 2) as nat);
        lemma_bit64_single_subset(c, s);
        lemma_move_steps_monotone(kind, 1u64 << s, c);
        lemma_bit64_subset(
            move_steps_spec(kind, 1u64 << s),
            move_steps_spec(kind, c),
            t,
        );
        lemma_bit64_or(c, move_steps_spec(kind, c), t);
        lemma_bit64_and(c | move_steps_spec(kind, c), perm, t);
    }
}

/// Slide chains always suffice: if the piece can walk from a starting square
/// to some square along permeable squares — a knight's jumps, in particular,
/// are never blocked by what they pass over — and then capture a target in
/// one step, then that target is capturable, however long the walk is.
pub proof fn lemma_path_capture(
    kind: PieceType,
    from: u64,
    obstacles: u64,
    targets: u64,
    path: Seq<u64>,
    t: u64,
)
    requires
        slide_path(kind, from, permeable_spec(obstacles, targets), path),
        bit64(capture_steps_spec(kind, 1u64 << path[path.len() - 1]), t),
        bit64(targets, t),
    ensures
        bit64(capturable_spec(kind, from, obstacles, targets), t),
{
    let perm = permeable_spec(obstacles, targets);
    let last = path[path.len() - 1];
    lemma_path_in_closure(kind, from, perm, path);
    let n = (path.len() - 1) as nat;
    let r = reach_spec(kind, from, perm);
    if n <= 64 {
        lemma_closure_grows_to(kind, from, perm, n, 64);
        lemma_bit64_subset(slide_closure(kind, from, perm, n), r, last);
    } else {
        lemma_closure_complete(kind, from, perm, n);
    }
    lemma_bit64_single_subset(r, last);
    lemma_move_steps_monotone(kind, 1u64 << last, r);
    lemma_bit64_subset(
        capture_steps_spec(kind, 1u64 << last),
        capture_steps_spec(kind, r),
        t,
    );
    lemma_bit64_and(capture_steps_spec(kind, r), targets, t);
}

/// Given that a piece of kind `kind` is on one of the squares in `from`, and
/// may not move onto or through the squares in `obstacles`, which of the
/// `targets` can it capture?
///
/// The piece slides zero or more steps, each onto a square that is neither an
/// obstacle nor a target, and then makes exactly one capture step onto a
/// target square.
pub fn captures(kind: PieceType, from: SquareSet, obstacles: SquareSet, targets: SquareSet) -> (r:
    SquareSet)
    ensures
        r.0 == capturable_spec(kind, from.0, obstacles.0, targets.0),
{
    let permeable = obstacles.union(targets).complement();
    let mut reachable = from.intersect(permeable);
    let mut i: u64 = 0;
    loop
        invariant_except_break
            i <= 64,
            reachable.0 == slide_closure(kind, from.0, permeable.0, i as nat),
        invariant
            permeable.0 == permeable_spec(obstacles.0, targets.0),
        ensures
            reachable.0 == reach_spec(kind, from.0, permeable.0),
        decreases 64 - i,
    {
        if i == 64 {
            break ;
        }
        let next = reachable.union(kind.move_steps(reachable)).intersect(permeable);
        if next.0 == reachable.0 {
            proof {
                lemma_closure_stationary(kind, from.0, permeable.0, i as nat, 64);
            }
            break ;
        }
        reachable = next;
        i = i + 1;
    }
    kind.capture_steps(reachable).intersect(targets)
}

} // verus!
