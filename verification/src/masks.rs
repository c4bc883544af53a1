//! Candidate bitmasks.
//!
//! The legal values of a cell are tracked as bits of a `u16`: bit `v - 1`
//! stands for the value `v`, so every board side length up to 16 fits in one
//! mask word.

use vstd::prelude::*;

verus! {

/// Value `v` (with 1 <= v <= 16) is present in the mask `m`, that is, bit
/// `v - 1` of `m` is set.
pub open spec fn mask_has(m: u16, v: int) -> bool {
    ((m >> ((v - 1) as u16)) & 1) == 1
}

/// The bit that stands for value `v`.
pub open spec fn value_bit(v: int) -> u16 {
    1u16 << ((v - 1) as u16)
}

/// How many of the values 1..=k are present in `m`.
pub open spec fn num_candidates(m: u16, k: int) -> nat
    decreases k,
{
    if k <= 0 {
        0
    } else {
        num_candidates(m, k - 1) + (if mask_has(m, k) {
            1nat
        } else {
            0nat
        })
    }
}

proof fn lemma_bit_or(m: u16, p: u16, q: u16)
    requires
        p < 16,
        q < 16,
    ensures
        (((m | (1u16 << p)) >> q) & 1 == 1) <==> (p == q || ((m >> q) & 1 == 1)),
{
    assert((((m | (1u16 << p)) >> q) & 1 == 1) <==> (p == q || ((m >> q) & 1 == 1)))
        by (bit_vector)
        requires
            p < 16,
            q < 16,
    ;
}

/// The empty mask holds no value.
pub proof fn lemma_mask_empty(w: int)
    requires
        1 <= w <= 16,
    ensures
        !mask_has(0u16, w),
{
    let q = (w - 1) as u16;
    assert(((0u16 >> q) & 1) == 0) by (bit_vector);
}

/// Setting the bit of value `v` keeps every other value's membership as it
/// was and makes `v` itself a member.
pub proof fn lemma_mask_or_bit(m: u16, v: int, w: int)
    requires
        1 <= v <= 16,
        1 <= w <= 16,
    ensures
        mask_has(m | value_bit(v), w) <==> (v == w || mask_has(m, w)),
{
    lemma_bit_or(m, (v - 1) as u16, (w - 1) as u16);
}

/// Intersection of masks is intersection of their value sets.
pub proof fn lemma_mask_and(a: u16, b: u16, w: int)
    requires
        1 <= w <= 16,
    ensures
        mask_has(a & b, w) <==> (mask_has(a, w) && mask_has(b, w)),
{
    let q = (w - 1) as u16;
    assert((((a & b) >> q) & 1 == 1) <==> (((a >> q) & 1 == 1) && ((b >> q) & 1 == 1)))
        by (bit_vector)
        requires
            q < 16,
    ;
}

/// Union of masks is union of their value sets.
pub proof fn lemma_mask_or(a: u16, b: u16, w: int)
    requires
        1 <= w <= 16,
    ensures
        mask_has(a | b, w) <==> (mask_has(a, w) || mask_has(b, w)),
{
    let q = (w - 1) as u16;
    assert((((a | b) >> q) & 1 == 1) <==> (((a >> q) & 1 == 1) || ((b >> q) & 1 == 1)))
        by (bit_vector)
        requires
            q < 16,
    ;
}

/// Complement of a mask holds exactly the values the mask lacks.
pub proof fn lemma_mask_not(a: u16, w: int)
    requires
        1 <= w <= 16,
    ensures
        mask_has(!a, w) <==> !mask_has(a, w),
{
    let q = (w - 1) as u16;
    assert((((!a) >> q) & 1 == 1) <==> !((a >> q) & 1 == 1))
        by (bit_vector)
        requires
            q < 16,
    ;
}

/// Setting the bit of a value that was absent raises the candidate count of
/// every range that covers the value by exactly one.
pub proof fn lemma_num_candidates_set(m: u16, v: int, k: int)
    requires
        1 <= v <= 16,
        k <= 16,
        !mask_has(m, v),
    ensures
        num_candidates(m | value_bit(v), k) as int == num_candidates(m, k) as int + (if 1 <= v
            <= k {
            1int
        } else {
            0int
        }),
    decreases k,
{
    if k <= 0 {
    } else {
        lemma_num_candidates_set(m, v, k - 1);
        lemma_mask_or_bit(m, v, k);
    }
}

/// A mask that holds none of the values 1..=k counts zero candidates.
pub proof fn lemma_num_candidates_none(m: u16, k: int)
    requires
        k <= 16,
        forall|w: int| 1 <= w <= k ==> !mask_has(m, w),
    ensures
        num_candidates(m, k) == 0,
    decreases k,
{
    if k > 0 {
        lemma_num_candidates_none(m, k - 1);
    }
}

/// A member value makes the candidate count positive.
pub proof fn lemma_num_candidates_member(m: u16, k: int, a: int)
    requires
        1 <= a <= k <= 16,
        mask_has(m, a),
    ensures
        num_candidates(m, k) >= 1,
    decreases k,
{
    if a < k {
        lemma_num_candidates_member(m, k - 1, a);
    }
}

proof fn lemma_num_candidates_pair(m: u16, k: int, a: int, b: int)
    requires
        1 <= a < b <= k <= 16,
        mask_has(m, a),
        mask_has(m, b),
    ensures
        num_candidates(m, k) >= 2,
    decreases k,
{
    if b == k {
        lemma_num_candidates_member(m, k - 1, a);
    } else {
        lemma_num_candidates_pair(m, k - 1, a, b);
    }
}

/// A mask that counts exactly one candidate holds a single value: any two
/// member values of 1..=k coincide.
pub proof fn lemma_num_candidates_unique(m: u16, k: int, a: int, b: int)
    requires
        0 <= k <= 16,
        num_candidates(m, k) == 1,
        1 <= a <= k,
        1 <= b <= k,
        mask_has(m, a),
        mask_has(m, b),
    ensures
        a == b,
{
    if a < b {
        lemma_num_candidates_pair(m, k, a, b);
    } else if b < a {
        lemma_num_candidates_pair(m, k, b, a);
    }
}

/// A range of k values holds at most k candidates.
pub proof fn lemma_num_candidates_le(m: u16, k: int)
    requires
        0 <= k,
    ensures
        num_candidates(m, k) <= k,
    decreases k,
{
    if k > 0 {
        lemma_num_candidates_le(m, k - 1);
    }
}

/// Exact bit test for a value.
pub fn mask_contains(m: u16, v: u8) -> (b: bool)
    requires
        1 <= v <= 16,
    ensures
        b == mask_has(m, v as int),
{
    ((m >> ((v - 1) as u16)) & 1) == 1
}

/// Counts how many of the values 1..=n the mask holds.
pub fn count_values(m: u16, n: usize) -> (c: u8)
    requires
        n <= 16,
    ensures
        c as nat == num_candidates(m, n as int),
        c as int <= n as int,
{
    let mut c: u8 = 0;
    let mut v: usize = 1;
    while v <= n
        invariant
            n <= 16,
            1 <= v <= n + 1,
            c as nat == num_candidates(m, v - 1),
            c as int <= v - 1,
        decreases n + 1 - v,
    {
        if mask_contains(m, v as u8) {
            c = c + 1;
        }
        v = v + 1;
    }
    c
}

/// The smallest value in 1..=n that the mask holds, if any.
pub fn first_value(m: u16, n: usize) -> (r: Option<u8>)
    requires
        1 <= n <= 16,
    ensures
        r matches Some(v) ==> 1 <= v <= n && mask_has(m, v as int) && (forall|w: int|
            1 <= w < v ==> !mask_has(m, w)),
        r is None ==> forall|w: int| 1 <= w <= n ==> !mask_has(m, w),
{
    let mut v: usize = 1;
    while v <= n
        invariant
            1 <= n <= 16,
            1 <= v <= n + 1,
            forall|w: int| 1 <= w < v ==> !mask_has(m, w),
        decreases n + 1 - v,
    {
        if mask_contains(m, v as u8) {
            return Some(v as u8);
        }
        v = v + 1;
    }
    None
}

} // verus!
