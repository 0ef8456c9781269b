use vstd::prelude::*;
use vstd::arithmetic::power2::{pow2, lemma_pow2_adds, lemma_pow2_pos, lemma2_to64};
use vstd::arithmetic::div_mod::{
    lemma_div_denominator, lemma_fundamental_div_mod, lemma_fundamental_div_mod_converse,
    lemma_mod_breakdown,
};
use vstd::bits::lemma_usize_shr_is_div;

verus! {

/// Number of slots in every node of the trie.
pub const BRANCH_FACTOR: usize = 32;

/// Number of index bits consumed by one level of the trie.
pub const BITS_PER_LEVEL: usize = 5;

/// The number of index bits below a trie level: a multiple of `BITS_PER_LEVEL`.
#[derive(Copy, Clone, Debug, PartialEq, Eq, PartialOrd, Ord)]
pub struct Shift(pub usize);

/// A position in the vector, read level by level as base-32 digits.
#[derive(Copy, Clone, Debug, PartialEq, Eq, PartialOrd, Ord)]
pub struct Index(pub usize);

/// Number of element positions below one slot of a node at height `h`
/// (a node at height 0 is a leaf, whose slots hold single elements).
pub open spec fn span(h: nat) -> nat {
    pow2(5 * h)
}

/// The slot that position `k` goes through in a node at height `h`.
pub open spec fn digit(k: nat, h: nat) -> nat {
    (k / span(h)) % 32
}

impl Shift {
    /// The shift one level further from the leaves.
    pub fn inc(self) -> (r: Shift)
        requires
            self.0 + BITS_PER_LEVEL <= usize::MAX,
        ensures
            r.0 == self.0 + BITS_PER_LEVEL,
    {
        Shift(self.0 + BITS_PER_LEVEL)
    }

    /// The shift one level closer to the leaves.
    pub fn dec(self) -> (r: Shift)
        requires
            self.0 >= BITS_PER_LEVEL,
        ensures
            r.0 == self.0 - BITS_PER_LEVEL,
    {
        Shift(self.0 - BITS_PER_LEVEL)
    }
}

impl Index {
    /// The slot that this position goes through in a node whose children
    /// are `shift` bits wide: bits `shift .. shift + 5` of the position.
    pub fn child(self, shift: Shift) -> (r: usize)
        requires
            shift.0 < usize::BITS,
        ensures
            r == (self.0 as nat / pow2(shift.0 as nat)) % 32,
            r < BRANCH_FACTOR,
    {
        let q = self.0 >> shift.0;
        proof {
            lemma_usize_shr_is_div(self.0, shift.0);
            assert(q & 31usize == q % 32) by (bit_vector);
        }
        q & BRANCH_FACTOR - 1
    }

    /// The slot of this position within its leaf: its lowest five bits.
    pub fn element(self) -> (r: usize)
        ensures
            r == self.0 % 32,
            r == digit(self.0 as nat, 0),
            r < BRANCH_FACTOR,
    {
        let x = self.0;
        proof {
            assert(x & 31usize == x % 32) by (bit_vector);
            lemma_span_basics(0);
        }
        x & BRANCH_FACTOR - 1
    }
}

/// Facts about `span`: it is positive, one at the leaves, and grows by 32
/// per level.
pub proof fn lemma_span_basics(h: nat)
    ensures
        span(h) > 0,
        span(0) == 1,
        span(1) == 32,
        span(h + 1) == 32 * span(h),
        h >= 1 ==> span(h) % 32 == 0,
        h >= 1 ==> span(h) >= 32,
{
    lemma_pow2_pos(5 * h);
    lemma2_to64();
    lemma_pow2_adds(5 * h, 5);
    assert(5 * (h + 1) == 5 * h + 5);
    if h >= 1 {
        lemma_pow2_adds(5 * ((h - 1) as nat), 5);
        assert(5 * h == 5 * ((h - 1) as nat) + 5);
        lemma_pow2_pos(5 * ((h - 1) as nat));
        assert(span(h) == 32 * pow2(5 * ((h - 1) as nat)));
    }
}

/// Splitting a position below a node at height `h` into the slot it takes
/// and its offset inside that slot.
pub proof fn lemma_digit_split(k: nat, h: nat)
    ensures
        k % span(h + 1) == span(h) * digit(k, h) + k % span(h),
        (k % span(h + 1)) / span(h) == digit(k, h),
        (k % span(h + 1)) % span(h) == k % span(h),
        digit(k, h) < 32,
{
    lemma_span_basics(h);
    let s = span(h);
    lemma_mod_breakdown(k as int, s as int, 32);
    assert(s * 32 == span(h + 1)) by (nonlinear_arith)
        requires span(h + 1) == 32 * s;
    assert(0 <= k % s < s);
    lemma_fundamental_div_mod_converse(
        (k % span(h + 1)) as int,
        s as int,
        digit(k, h) as int,
        (k % s) as int,
    );
    assert(digit(k, h) * s == s * digit(k, h)) by (nonlinear_arith);
}

/// The quotient one level down extends the quotient one level up by a digit.
pub proof fn lemma_quot_step(k: nat, h: nat)
    ensures
        k / span(h) == 32 * (k / span(h + 1)) + digit(k, h),
{
    lemma_span_basics(h);
    lemma_div_denominator(k as int, span(h) as int, 32);
    assert(span(h) * 32 == span(h + 1)) by (nonlinear_arith)
        requires span(h + 1) == 32 * span(h);
    lemma_fundamental_div_mod((k / span(h)) as int, 32);
}

/// Positions in the same leaf take the same slot at every level.
pub proof fn lemma_same_leaf_digit(k: nat, i: nat, h: nat)
    requires
        k / 32 == i / 32,
    ensures
        digit(k, h) == digit(i, h) || h == 0,
        h >= 1 ==> k / span(h) == i / span(h),
{
    if h >= 1 {
        let g = (h - 1) as nat;
        lemma_span_basics(g);
        lemma_span_basics(h);
        assert(h == g + 1);
        lemma_div_denominator(k as int, 32, span(g) as int);
        lemma_div_denominator(i as int, 32, span(g) as int);
    }
}

/// Positions with the same quotient at a level and the same digit there
/// have the same quotient one level down.
pub proof fn lemma_quot_descend(k: nat, i: nat, h: nat)
    requires
        k / span(h + 1) == i / span(h + 1),
        digit(k, h) == digit(i, h),
    ensures
        k / span(h) == i / span(h),
{
    lemma_quot_step(k, h);
    lemma_quot_step(i, h);
}

/// Positions in different leaves that agree on their quotient at height 1
/// take different slots there.
pub proof fn lemma_leaf_digit_differs(k: nat, i: nat)
    requires
        k / span(2) == i / span(2),
        k / 32 != i / 32,
    ensures
        digit(k, 1) != digit(i, 1),
{
    lemma_span_basics(0);
    lemma_span_basics(1);
    if digit(k, 1) == digit(i, 1) {
        lemma_quot_descend(k, i, 1);
    }
}

} // verus!
