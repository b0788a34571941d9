//! Sets of board squares, represented as 64-bit masks.

use vstd::prelude::*;

verus! {

/// A subset of the squares of the 8x8 board.
///
/// The square on file `x` (0 = file a .. 7 = file h) and rank `y`
/// (0 = rank 1 .. 7 = rank 8) is bit `8 * y + x`.  Bit `i` is set exactly
/// when square `i` is a member of the set.
#[derive(Debug, Copy, Clone, PartialEq, Eq, Structural)]
pub struct SquareSet(pub u64);

/// Squares from which a piece may move one file toward file a
/// (every square not on the a-file).
pub const CAN_GO_LEFT: u64 = !0x0101_0101_0101_0101u64;

/// Squares from which a piece may move one file toward file h
/// (every square not on the h-file).
pub const CAN_GO_RIGHT: u64 = !0x8080_8080_8080_8080u64;

/// Squares from which a piece may move two files toward file a.
pub const CAN_GO_TWO_LEFT: u64 = !0x0303_0303_0303_0303u64;

/// Squares from which a piece may move two files toward file h.
pub const CAN_GO_TWO_RIGHT: u64 = !0xc0c0_c0c0_c0c0_c0c0u64;

/// True when bit `i` of `m` is set and `i` names a board square.
pub open spec fn bit64(m: u64, i: u64) -> bool {
    i < 64 && (m >> i) & 1u64 == 1u64
}

impl SquareSet {
    /// True when square `sq` is a member of the set.
    pub open spec fn contains(self, sq: u64) -> bool {
        bit64(self.0, sq)
    }

    /// The empty set of squares.
    pub fn empty() -> (r: SquareSet)
        ensures
            r.0 == 0u64,
    {
        SquareSet(0)
    }

    /// The set holding exactly the square `sq`.
    pub fn single(sq: u8) -> (r: SquareSet)
        requires
            sq < 64,
        ensures
            r.0 == 1u64 << (sq as u64),
    {
        SquareSet(1u64 << (sq as u64))
    }

    /// Union of two square sets.
    pub fn union(self, rhs: SquareSet) -> (r: SquareSet)
        ensures
            r.0 == (self.0 | rhs.0),
    {
        SquareSet(self.0 | rhs.0)
    }

    /// Intersection of two square sets.
    pub fn intersect(self, rhs: SquareSet) -> (r: SquareSet)
        ensures
            r.0 == (self.0 & rhs.0),
    {
        SquareSet(self.0 & rhs.0)
    }

    /// Complement: every square not in the set.
    pub fn complement(self) -> (r: SquareSet)
        ensures
            r.0 == !self.0,
    {
        SquareSet(!self.0)
    }

    /// Whether square `sq` is a member of the set.
    pub fn has(self, sq: u8) -> (b: bool)
        requires
            sq < 64,
        ensures
            b == self.contains(sq as u64),
    {
        (self.0 >> (sq as u64)) & 1u64 == 1u64
    }
}

/// Membership in an intersection, bit by bit.
pub proof fn lemma_bit64_and(m1: u64, m2: u64, i: u64)
    by (bit_vector)
    ensures
        bit64(m1 & m2, i) == (bit64(m1, i) && bit64(m2, i)),
{
}

/// Membership in a union, bit by bit.
pub proof fn lemma_bit64_or(m1: u64, m2: u64, i: u64)
    by (bit_vector)
    ensures
        bit64(m1 | m2, i) == (bit64(m1, i) || bit64(m2, i)),
{
}

/// The singleton mask `1 << l` holds exactly the square `l`.
pub proof fn lemma_bit64_single(l: u64, i: u64)
    by (bit_vector)
    requires
        l < 64,
    ensures
        bit64(1u64 << l, i) == (i == l),
{
}

/// `a & b == a` says that `a` is a subset of `b`; membership carries over.
pub proof fn lemma_bit64_subset(a: u64, b: u64, i: u64)
    by (bit_vector)
    requires
        a & b == a,
        bit64(a, i),
    ensures
        bit64(b, i),
{
}

/// How many of the 64 bits of `m` below position `k` are set.
pub open spec fn pop_upto(m: u64, k: nat) -> nat
    decreases k,
{
    if k == 0 {
        0
    } else {
        pop_upto(m, (k - 1) as nat) + if bit64(m, (k - 1) as u64) {
            1nat
        } else {
            0nat
        }
    }
}

/// How many bits of `m` are set.
pub open spec fn popcount(m: u64) -> nat {
    pop_upto(m, 64)
}

/// Clearing bit `j` clears exactly that bit.
pub proof fn lemma_bit64_clear(m: u64, j: u64, i: u64)
    by (bit_vector)
    requires
        j < 64,
    ensures
        bit64(m & !(1u64 << j), i) == (bit64(m, i) && i != j),
{
}

proof fn lemma_pop_upto_clear(m: u64, j: u64, k: nat)
    requires
        j < 64,
        k <= 64,
    ensures
        pop_upto(m & !(1u64 << j), k) + (if (j as nat) < k && bit64(m, j) {
            1nat
        } else {
            0nat
        }) == pop_upto(m, k),
    decreases k,
{
    if k > 0 {
        lemma_pop_upto_clear(m, j, (k - 1) as nat);
        lemma_bit64_clear(m, j, (k - 1) as u64);
    }
}

/// Clearing a set bit lowers the population count by exactly one.
pub proof fn lemma_popcount_clear(m: u64, j: u64)
    requires
        bit64(m, j),
    ensures
        popcount(m & !(1u64 << j)) + 1 == popcount(m),
{
    lemma_pop_upto_clear(m, j, 64);
}

proof fn lemma_pop_upto_all_below(m: u64, b: u64, k: nat)
    requires
        forall|i: u64| bit64(m, i) == (i < b),
        b <= 64,
        k <= 64,
    ensures
        pop_upto(m, k) == if k <= b {
            k
        } else {
            b as nat
        },
    decreases k,
{
    if k > 0 {
        lemma_pop_upto_all_below(m, b, (k - 1) as nat);
        assert(bit64(m, (k - 1) as u64) == (((k - 1) as u64) < b));
    }
}

proof fn lemma_pop_upto_subset(a: u64, b: u64, k: nat)
    requires
        a & b == a,
        k <= 64,
    ensures
        pop_upto(a, k) <= pop_upto(b, k),
    decreases k,
{
    if k > 0 {
        lemma_pop_upto_subset(a, b, (k - 1) as nat);
        if bit64(a, (k - 1) as u64) {
            lemma_bit64_subset(a, b, (k - 1) as u64);
        }
    }
}

proof fn lemma_pop_upto_bound(m: u64, k: nat)
    ensures
        pop_upto(m, k) <= k,
    decreases k,
{
    if k > 0 {
        lemma_pop_upto_bound(m, (k - 1) as nat);
    }
}

/// No square set has more than 64 members.
pub proof fn lemma_popcount_bound(m: u64)
    ensures
        popcount(m) <= 64,
{
    lemma_pop_upto_bound(m, 64);
}

/// A strict subset has strictly fewer members: some bit of `b` is missing
/// from `a`, and the rest of `a` still fits in `b` without it.
pub proof fn lemma_popcount_strict_subset(a: u64, b: u64)
    requires
        a & b == a,
        a != b,
    ensures
        popcount(a) < popcount(b),
{
    let d = a ^ b;
    assert((a ^ b) == 0 ==> a == b) by (bit_vector);
    vstd::std_specs::bits::axiom_u64_trailing_zeros(d);
    let j = vstd::std_specs::bits::u64_trailing_zeros(d) as u64;
    assert(bit64(b, j) && !bit64(a, j) && (a & (b & !(1u64 << j))) == a) by (bit_vector)
        requires
            a & b == a,
            d == a ^ b,
            j < 64,
            (d >> j) & 1u64 == 1u64,
    ;
    lemma_pop_upto_subset(a, b & !(1u64 << j), 64);
    lemma_popcount_clear(b, j);
}

/// The empty square set has no members to count.
pub proof fn lemma_popcount_zero()
    ensures
        popcount(0u64) == 0,
{
    assert forall|i: u64| bit64(0u64, i) == (i < 0) by {
        assert((0u64 >> i) & 1u64 == 0u64) by (bit_vector);
    }
    lemma_pop_upto_all_below(0u64, 0, 64);
}

/// The population count of the low mask `(1 << n) - 1`.
pub proof fn lemma_popcount_low_mask(n: u64)
    requires
        n <= 63,
    ensures
        popcount(((1u64 << n) - 1) as u64) == n,
{
    let m = ((1u64 << n) - 1) as u64;
    assert forall|i: u64| bit64(m, i) == (i < n) by {
        assert(bit64(m, i) == (i < n)) by (bit_vector)
            requires
                n <= 63,
                m == ((1u64 << n) - 1) as u64,
        ;
    }
    lemma_pop_upto_all_below(m, n, 64);
}

} // verus!
