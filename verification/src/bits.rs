//! Facts about single bits of a `u64`, proved with the bit-vector solver.
use vstd::prelude::*;
use vstd::std_specs::bits::{
    axiom_u64_leading_zeros, axiom_u64_trailing_zeros, u64_leading_zeros, u64_trailing_zeros,
};

verus! {

/// Bit `j` of `m` is set.
pub open spec fn bit(m: u64, j: u64) -> bool {
    (m >> j) & 1u64 == 1u64
}

/// Number of set bits of `m` below position `n`.
pub open spec fn popcount_below(m: u64, n: nat) -> nat
    decreases n,
{
    if n == 0 {
        0
    } else {
        popcount_below(m, (n - 1) as nat) + if n - 1 < 64 && bit(m, (n - 1) as u64) {
            1nat
        } else {
            0nat
        }
    }
}

pub proof fn lemma_bit_or(a: u64, b: u64, j: u64)
    requires
        j < 64,
    ensures
        bit(a | b, j) == (bit(a, j) || bit(b, j)),
{
    assert(((a | b) >> j) & 1u64 == 1u64 <==> ((a >> j) & 1u64 == 1u64 || (b >> j) & 1u64 == 1u64))
        by (bit_vector)
        requires
            j < 64,
    ;
}

pub proof fn lemma_bit_and(a: u64, b: u64, j: u64)
    requires
        j < 64,
    ensures
        bit(a & b, j) == (bit(a, j) && bit(b, j)),
{
    assert(((a & b) >> j) & 1u64 == 1u64 <==> ((a >> j) & 1u64 == 1u64 && (b >> j) & 1u64 == 1u64))
        by (bit_vector)
        requires
            j < 64,
    ;
}

pub proof fn lemma_bit_not(a: u64, j: u64)
    requires
        j < 64,
    ensures
        bit(!a, j) == !bit(a, j),
{
    assert(((!a) >> j) & 1u64 == 1u64 <==> !((a >> j) & 1u64 == 1u64)) by (bit_vector)
        requires
            j < 64,
    ;
}

pub proof fn lemma_bit_single(i: u64, j: u64)
    requires
        i < 64,
        j < 64,
    ensures
        bit(1u64 << i, j) == (i == j),
{
    assert(((1u64 << i) >> j) & 1u64 == 1u64 <==> i == j) by (bit_vector)
        requires
            i < 64,
            j < 64,
    ;
}

/// `(1 << n) - 1` has exactly the bits below `n`.
pub proof fn lemma_bit_low_mask(n: u64, j: u64)
    requires
        n < 64,
        j < 64,
    ensures
        (1u64 << n) >= 1,
        bit(((1u64 << n) - 1) as u64, j) == (j < n),
{
    assert((1u64 << n) >= 1 && ((((1u64 << n) - 1u64) as u64 >> j) & 1u64 == 1u64 <==> j < n))
        by (bit_vector)
        requires
            n < 64,
            j < 64,
    ;
}

/// `!0 << n` has exactly the bits at or above `n`.
pub proof fn lemma_bit_high_mask(n: u64, j: u64)
    requires
        n < 64,
        j < 64,
    ensures
        bit(!0u64 << n, j) == (j >= n),
{
    assert((((!0u64) << n) >> j) & 1u64 == 1u64 <==> j >= n) by (bit_vector)
        requires
            n < 64,
            j < 64,
    ;
}

pub proof fn lemma_bit_all_and_none(j: u64)
    requires
        j < 64,
    ensures
        bit(!0u64, j),
        !bit(0u64, j),
{
    assert(((!0u64) >> j) & 1u64 == 1u64 && !((0u64 >> j) & 1u64 == 1u64)) by (bit_vector)
        requires
            j < 64,
    ;
}

/// Testing a bit through `m & (1 << i) != 0`.
pub proof fn lemma_test_single(m: u64, i: u64)
    requires
        i < 64,
    ensures
        (m & (1u64 << i) != 0) == bit(m, i),
{
    assert((m & (1u64 << i) != 0) <==> ((m >> i) & 1u64 == 1u64)) by (bit_vector)
        requires
            i < 64,
    ;
}

/// Clearing the lowest set bit with `v & (v - 1)`.
pub proof fn lemma_clear_lowest(v: u64, j: u64)
    requires
        v != 0,
        j < 64,
    ensures
        bit(v & ((v - 1) as u64), j) == (bit(v, j) && j != u64_trailing_zeros(v) as u64),
{
    axiom_u64_trailing_zeros(v);
    let t = u64_trailing_zeros(v) as u64;
    assert(t < 64);
    let s = (64 - t) as u64;
    assert(v << s == 0);
    assert(v != 0 && t < 64 && j < 64 && s == 64 - t && (v >> t) & 1u64 == 1u64 && v << s == 0
        ==> (((v & ((v - 1u64) as u64)) >> j) & 1u64 == 1u64 <==> ((v >> j) & 1u64 == 1u64 && j
        != t))) by (bit_vector);
}

/// The lowest set bit of a nonzero `v`, and all bits of a zero `v`.
pub proof fn lemma_lowest_bit(v: u64)
    ensures
        v == 0 <==> u64_trailing_zeros(v) == 64,
        v == 0 ==> forall|j: u64| j < 64 ==> !#[trigger] bit(v, j),
        v != 0 ==> u64_trailing_zeros(v) < 64 && bit(v, u64_trailing_zeros(v) as u64),
        forall|j: u64| j < u64_trailing_zeros(v) ==> !#[trigger] bit(v, j),
{
    axiom_u64_trailing_zeros(v);
    assert forall|j: u64| j < 64 && v == 0 implies !#[trigger] bit(v, j) by {
        lemma_bit_all_and_none(j);
    }
}

/// The highest set bit of a nonzero `v`.
pub proof fn lemma_highest_bit(v: u64)
    requires
        v != 0,
    ensures
        0 <= u64_leading_zeros(v) < 64,
        bit(v, (63 - u64_leading_zeros(v)) as u64),
        forall|j: u64| 63 - u64_leading_zeros(v) < j < 64 ==> !#[trigger] bit(v, j),
{
    axiom_u64_leading_zeros(v);
    let h = (63 - u64_leading_zeros(v)) as u64;
    assert((v >> h) & 1u64 != 0u64 ==> (v >> h) & 1u64 == 1u64) by (bit_vector);
    assert forall|j: u64| 63 - u64_leading_zeros(v) < j < 64 implies !#[trigger] bit(v, j) by {
        assert((v >> j) & 1u64 == 0u64 ==> !((v >> j) & 1u64 == 1u64)) by (bit_vector);
    }
}

/// Counting the set bits of `x` by testing each of them.
pub fn count_ones(x: u64) -> (r: u32)
    ensures
        r as nat == popcount_below(x, 64),
{
    let mut i: u64 = 0;
    let mut c: u32 = 0;
    while i < 64
        invariant
            i <= 64,
            c as nat == popcount_below(x, i as nat),
            c <= i,
        decreases 64 - i,
    {
        if (x >> i) & 1u64 == 1u64 {
            c = c + 1;
        }
        i = i + 1;
    }
    c
}

/// `popcount_below` only depends on the bits below the bound.
pub proof fn lemma_popcount_ext(a: u64, b: u64, n: nat)
    requires
        n <= 64,
        forall|j: u64| j < n ==> bit(a, j) == bit(b, j),
    ensures
        popcount_below(a, n) == popcount_below(b, n),
    decreases n,
{
    if n > 0 {
        lemma_popcount_ext(a, b, (n - 1) as nat);
        assert(bit(a, (n - 1) as u64) == bit(b, (n - 1) as u64));
    }
}

/// Past the highest set bit the count stays the same.
pub proof fn lemma_popcount_stable(a: u64, n: nat, m: nat)
    requires
        n <= m <= 64,
        forall|j: u64| n <= j < m ==> !bit(a, j),
    ensures
        popcount_below(a, n) == popcount_below(a, m),
    decreases m - n,
{
    if n < m {
        lemma_popcount_stable(a, n, (m - 1) as nat);
        assert(!bit(a, (m - 1) as u64));
    }
}

} // verus!
