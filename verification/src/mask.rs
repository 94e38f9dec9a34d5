//! Candidate masks: bit `n - 1` of a `u16` stands for digit `n` (1..=9).
use vstd::prelude::*;

verus! {

/// The mask with only digit `n` set.
pub open spec fn bit_of(n: u8) -> u16 {
    1u16 << ((n - 1) as u16)
}

/// Digit `n` is in the mask.
pub open spec fn has_digit(m: u16, n: u8) -> bool {
    m & bit_of(n) != 0
}

pub open spec fn is_digit(n: u8) -> bool {
    1 <= n <= 9
}

/// A mask that holds only digits 1..=9.
pub open spec fn is_mask(m: u16) -> bool {
    m < 512
}

pub proof fn lemma_bit_has(n: u8, d: u8)
    requires is_digit(n), is_digit(d),
    ensures has_digit(bit_of(n), d) <==> d == n, is_mask(bit_of(n)), bit_of(n) != 0,
{
    assert(has_digit(bit_of(n), d) <==> d == n) by (bit_vector)
        requires 1 <= n <= 9, 1 <= d <= 9;
    assert(bit_of(n) < 512 && bit_of(n) != 0) by (bit_vector)
        requires 1 <= n <= 9;
}

/// The empty mask holds no digit.
pub proof fn lemma_zero_has_none(d: u8)
    requires is_digit(d),
    ensures !has_digit(0u16, d),
{
    assert(!has_digit(0u16, d)) by (bit_vector)
        requires 1 <= d <= 9;
}

pub proof fn lemma_has_and(a: u16, b: u16, d: u8)
    requires is_digit(d),
    ensures has_digit(a & b, d) <==> has_digit(a, d) && has_digit(b, d),
{
    assert(has_digit(a & b, d) <==> has_digit(a, d) && has_digit(b, d)) by (bit_vector)
        requires 1 <= d <= 9;
}

pub proof fn lemma_has_or(a: u16, b: u16, d: u8)
    requires is_digit(d),
    ensures has_digit(a | b, d) <==> has_digit(a, d) || has_digit(b, d),
{
    assert(has_digit(a | b, d) <==> has_digit(a, d) || has_digit(b, d)) by (bit_vector)
        requires 1 <= d <= 9;
}

pub proof fn lemma_has_and_not(a: u16, b: u16, d: u8)
    requires is_digit(d),
    ensures has_digit(a & !b, d) <==> has_digit(a, d) && !has_digit(b, d),
{
    assert(has_digit(a & !b, d) <==> has_digit(a, d) && !has_digit(b, d)) by (bit_vector)
        requires 1 <= d <= 9;
}

/// Two masks of digits that agree on every digit are equal.
pub proof fn lemma_mask_ext(a: u16, b: u16)
    requires
        is_mask(a), is_mask(b),
        forall|d: u8| is_digit(d) ==> (#[trigger] has_digit(a, d) <==> has_digit(b, d)),
    ensures a == b,
{
    assert(has_digit(a, 1) == has_digit(b, 1));
    assert(has_digit(a, 2) == has_digit(b, 2));
    assert(has_digit(a, 3) == has_digit(b, 3));
    assert(has_digit(a, 4) == has_digit(b, 4));
    assert(has_digit(a, 5) == has_digit(b, 5));
    assert(has_digit(a, 6) == has_digit(b, 6));
    assert(has_digit(a, 7) == has_digit(b, 7));
    assert(has_digit(a, 8) == has_digit(b, 8));
    assert(has_digit(a, 9) == has_digit(b, 9));
    assert(a == b) by (bit_vector)
        requires a < 512, b < 512,
            has_digit(a, 1) == has_digit(b, 1), has_digit(a, 2) == has_digit(b, 2), has_digit(a, 3) == has_digit(b, 3),
            has_digit(a, 4) == has_digit(b, 4), has_digit(a, 5) == has_digit(b, 5), has_digit(a, 6) == has_digit(b, 6),
            has_digit(a, 7) == has_digit(b, 7), has_digit(a, 8) == has_digit(b, 8), has_digit(a, 9) == has_digit(b, 9);
}

pub proof fn lemma_mask_ops_closed(a: u16, b: u16)
    requires is_mask(a),
    ensures is_mask(a & b), is_mask(a & !b), is_mask(b) ==> is_mask(a | b),
{
    assert(a & b < 512 && (a & !b) < 512 && (b < 512 ==> (a | b) < 512)) by (bit_vector)
        requires a < 512;
}

/// `bit(n)`: the mask with only digit `n`.
pub fn bit(n: u8) -> (m: u16)
    requires is_digit(n),
    ensures m == bit_of(n), is_mask(m), m != 0,
        forall|d: u8| is_digit(d) ==> (has_digit(m, d) <==> d == n),
{
    proof {
        assert forall|d: u8| is_digit(d) implies (has_digit(bit_of(n), d) <==> d == n) by {
            lemma_bit_has(n, d);
        }
        lemma_bit_has(n, n);
    }
    1u16 << (n - 1)
}

} // verus!
