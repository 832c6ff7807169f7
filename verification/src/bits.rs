//! Facts about the single bits of a 128-bit word.

use vstd::prelude::*;

verus! {

/// Whether bit `i` of `bits` is set.
pub open spec fn bit_is_set(bits: u128, i: nat) -> bool {
    i < 128 && (bits >> (i as u128)) & 1 == 1
}

/// No bit of zero is set.
pub broadcast proof fn lemma_bit_of_zero(i: nat)
    ensures
        !#[trigger] bit_is_set(0u128, i),
{
    if i < 128 {
        let j = i as u128;
        assert((0u128 >> j) & 1 != 1) by (bit_vector);
    }
}

/// The word `1 << k` has bit `k` set and no other.
pub broadcast proof fn lemma_bit_of_single(k: nat, i: nat)
    requires
        k < 128,
    ensures
        #[trigger] bit_is_set(1u128 << (k as u128), i) == (i == k),
{
    if i < 128 {
        let a = k as u128;
        let j = i as u128;
        assert((((1u128 << a) >> j) & 1 == 1) == (j == a)) by (bit_vector)
            requires
                a < 128,
                j < 128,
        ;
    }
}

/// A bit is set in `a | b` when it is set in `a` or in `b`.
pub broadcast proof fn lemma_bit_of_or(a: u128, b: u128, i: nat)
    ensures
        #[trigger] bit_is_set(a | b, i) == (bit_is_set(a, i) || bit_is_set(b, i)),
{
    if i < 128 {
        let j = i as u128;
        assert((((a | b) >> j) & 1 == 1) == (((a >> j) & 1 == 1) || ((b >> j) & 1 == 1)))
            by (bit_vector);
    }
}

/// A bit is set in `a & b` when it is set in `a` and in `b`.
pub broadcast proof fn lemma_bit_of_and(a: u128, b: u128, i: nat)
    ensures
        #[trigger] bit_is_set(a & b, i) == (bit_is_set(a, i) && bit_is_set(b, i)),
{
    if i < 128 {
        let j = i as u128;
        assert((((a & b) >> j) & 1 == 1) == (((a >> j) & 1 == 1) && ((b >> j) & 1 == 1)))
            by (bit_vector);
    }
}

/// A bit is set in `a & !b` when it is set in `a` and not in `b`.
pub broadcast proof fn lemma_bit_of_and_not(a: u128, b: u128, i: nat)
    ensures
        #[trigger] bit_is_set(a & !b, i) == (bit_is_set(a, i) && !bit_is_set(b, i)),
{
    if i < 128 {
        let j = i as u128;
        assert((((a & !b) >> j) & 1 == 1) == (((a >> j) & 1 == 1) && !((b >> j) & 1 == 1)))
            by (bit_vector);
    }
}

/// The bits that `a | b` has and `a` lacks are those of `b` that `a` lacks.
pub proof fn lemma_added_bits(a: u128, b: u128)
    ensures
        (a | b) ^ a == b & !a,
{
    assert((a | b) ^ a == b & !a) by (bit_vector);
}

/// The bits that `a` has and `a & !b` lacks are those that `a` and `b` share.
pub proof fn lemma_removed_bits(a: u128, b: u128)
    ensures
        (a & !b) ^ a == a & b,
{
    assert((a & !b) ^ a == a & b) by (bit_vector);
}

/// A word whose bits from position `i` on are all clear, once it is shifted
/// right by `i`, is zero; and the other way round.
pub proof fn lemma_shifted_zero(a: u128, i: nat, j: nat)
    requires
        i <= j < 128,
        a >> (i as u128) == 0,
    ensures
        !bit_is_set(a, j),
{
    let x = i as u128;
    let y = j as u128;
    assert((a >> y) & 1 != 1) by (bit_vector)
        requires
            x <= y < 128,
            a >> x == 0,
    ;
}

/// What the bit operations do with a word that is zero.
pub proof fn lemma_zero_word(a: u128)
    ensures
        a | 0 == a,
        a & 0 == 0,
        0 & a == 0,
        a & !0u128 == a,
        0 & !a == 0,
{
    assert(a | 0 == a) by (bit_vector);
    assert(a & 0 == 0) by (bit_vector);
    assert(0 & a == 0) by (bit_vector);
    assert(a & !0u128 == a) by (bit_vector);
    assert(0 & !a == 0) by (bit_vector);
}

/// Shifting by no position changes nothing.
pub proof fn lemma_shift_none(a: u128)
    ensures
        a >> 0u128 == a,
{
    assert(a >> 0u128 == a) by (bit_vector);
}

/// Shifting right by one more position.
pub proof fn lemma_shift_step(a: u128, i: nat)
    requires
        i < 128,
    ensures
        i < 127 ==> (a >> (i as u128)) >> 1 == a >> ((i + 1) as u128),
        i == 127 ==> (a >> (i as u128)) >> 1 == 0,
        ((a >> (i as u128)) & 1 != 0) == bit_is_set(a, i),
{
    let x = i as u128;
    if i < 127 {
        let y = (i + 1) as u128;
        assert((a >> x) >> 1 == a >> y) by (bit_vector)
            requires
                x < 127,
                y == x + 1,
        ;
    } else {
        assert((a >> x) >> 1 == 0) by (bit_vector)
            requires
                x == 127,
        ;
    }
    assert(((a >> x) & 1 != 0) == ((a >> x) & 1 == 1)) by (bit_vector);
}

/// A word that is not zero has a bit set.
pub proof fn lemma_nonzero_has_bit(a: u128) -> (i: nat)
    requires
        a != 0,
    ensures
        bit_is_set(a, i),
{
    lemma_shift_none(a);
    lemma_nonzero_has_bit_from(a, 0)
}

proof fn lemma_nonzero_has_bit_from(a: u128, k: nat) -> (i: nat)
    requires
        k < 128,
        a >> (k as u128) != 0,
    ensures
        bit_is_set(a, i),
    decreases 128 - k,
{
    let x = k as u128;
    if bit_is_set(a, k) {
        k
    } else if k == 127 {
        assert(a >> x == 0) by (bit_vector)
            requires
                x == 127,
                (a >> x) & 1 != 1,
        ;
        k
    } else {
        let y = (k + 1) as u128;
        assert(a >> y != 0) by (bit_vector)
            requires
                x < 127,
                y == x + 1,
                a >> x != 0,
                (a >> x) & 1 != 1,
        ;
        lemma_nonzero_has_bit_from(a, k + 1)
    }
}

/// Two words with the same bits set are equal.
pub proof fn lemma_bits_extensional(a: u128, b: u128)
    requires
        forall|i: nat| i < 128 ==> bit_is_set(a, i) == bit_is_set(b, i),
    ensures
        a == b,
{
    if a != b {
        let d = a ^ b;
        assert(d != 0) by (bit_vector)
            requires
                a != b,
                d == a ^ b,
        ;
        let i = lemma_nonzero_has_bit(d);
        let j = i as u128;
        assert(((a >> j) & 1 == 1) != ((b >> j) & 1 == 1)) by (bit_vector)
            requires
                j < 128,
                d == a ^ b,
                (d >> j) & 1 == 1,
        ;
        assert(bit_is_set(a, i) != bit_is_set(b, i));
    }
}

pub broadcast group group_bit_lemmas {
    lemma_bit_of_zero,
    lemma_bit_of_single,
    lemma_bit_of_or,
    lemma_bit_of_and,
    lemma_bit_of_and_not,
}

} // verus!
