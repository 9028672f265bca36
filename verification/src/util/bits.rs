//! Panel masks, bit by bit.

use crate::model::has_panel;
use vstd::prelude::*;

verus! {

/// Two masks with the same bits are the same.
pub proof fn lemma_bits_equal(a: u8, b: u8)
    requires
        forall|p: u8| p < 8 ==> (#[trigger] has_panel(a, p) <==> has_panel(b, p)),
    ensures
        a == b,
{
    assert(has_panel(a, 0) == has_panel(b, 0));
    assert(has_panel(a, 1) == has_panel(b, 1));
    assert(has_panel(a, 2) == has_panel(b, 2));
    assert(has_panel(a, 3) == has_panel(b, 3));
    assert(has_panel(a, 4) == has_panel(b, 4));
    assert(has_panel(a, 5) == has_panel(b, 5));
    assert(has_panel(a, 6) == has_panel(b, 6));
    assert(has_panel(a, 7) == has_panel(b, 7));
    assert((a & (1u8 << 0u8) != 0) == (b & (1u8 << 0u8) != 0) && (a & (1u8 << 1u8) != 0) == (b & (
    1u8 << 1u8) != 0) && (a & (1u8 << 2u8) != 0) == (b & (1u8 << 2u8) != 0) && (a & (1u8 << 3u8)
        != 0) == (b & (1u8 << 3u8) != 0) && (a & (1u8 << 4u8) != 0) == (b & (1u8 << 4u8) != 0) && (a
        & (1u8 << 5u8) != 0) == (b & (1u8 << 5u8) != 0) && (a & (1u8 << 6u8) != 0) == (b & (1u8
        << 6u8) != 0) && (a & (1u8 << 7u8) != 0) == (b & (1u8 << 7u8) != 0) ==> a == b)
        by (bit_vector);
}

/// The bits of masks that are put together.
pub broadcast proof fn lemma_bits_ops(a: u8, b: u8, p: u8)
    requires
        p < 8,
    ensures
        #![trigger has_panel(a | b, p)]
        #![trigger has_panel(a & b, p)]
        #![trigger has_panel(a & !b, p)]
        has_panel(a | b, p) <==> has_panel(a, p) || has_panel(b, p),
        has_panel(a & b, p) <==> has_panel(a, p) && has_panel(b, p),
        has_panel(a & !b, p) <==> has_panel(a, p) && !has_panel(b, p),
        !has_panel(0, p),
{
    assert(p < 8 ==> ((a | b) & (1u8 << p) != 0) == (a & (1u8 << p) != 0 || b & (1u8 << p) != 0))
        by (bit_vector);
    assert(p < 8 ==> ((a & b) & (1u8 << p) != 0) == (a & (1u8 << p) != 0 && b & (1u8 << p) != 0))
        by (bit_vector);
    assert(p < 8 ==> ((a & !b) & (1u8 << p) != 0) == (a & (1u8 << p) != 0 && b & (1u8 << p) == 0))
        by (bit_vector);
    assert(0u8 & (1u8 << p) == 0) by (bit_vector);
}

/// Masks that share no bit.
pub proof fn lemma_disjoint(a: u8, b: u8)
    ensures
        a & b == 0 <==> forall|p: u8| p < 8 ==> !(#[trigger] has_panel(a, p) && has_panel(b, p)),
{
    if forall|p: u8| p < 8 ==> !(#[trigger] has_panel(a, p) && has_panel(b, p)) {
        assert forall|p: u8| p < 8 implies (#[trigger] has_panel(a & b, p) <==> has_panel(0, p)) by {
            lemma_bits_ops(a, b, p);
        }
        lemma_bits_equal(a & b, 0);
    }
    if a & b == 0 {
        assert forall|p: u8| p < 8 implies !(#[trigger] has_panel(a, p) && has_panel(b, p)) by {
            lemma_bits_ops(a, b, p);
        }
    }
}

/// A mask that is not empty has a bit.
pub proof fn lemma_some_bit(a: u8)
    requires
        a != 0,
    ensures
        exists|p: u8| p < 8 && #[trigger] has_panel(a, p),
{
    if forall|p: u8| p < 8 ==> !#[trigger] has_panel(a, p) {
        assert forall|p: u8| p < 8 implies (#[trigger] has_panel(a, p) <==> has_panel(0, p)) by {
            lemma_bits_ops(a, a, p);
        }
        lemma_bits_equal(a, 0);
    }
}

} // verus!
