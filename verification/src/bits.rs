//! Bit-level facts about the packed occupancy masks.
//!
//! A line (one row, column or square) is a `u128` holding nine 9-bit
//! sub-masks.  A sub-mask is either zero (empty cell) or has exactly
//! the bit of the value placed there.
use vstd::prelude::*;
use vstd::std_specs::bits::{axiom_u16_trailing_zeros, u16_trailing_zeros};

verus! {

/// Width in bits of one sub-mask.
pub const CELL_MASK_LEN: usize = 9;

/// All nine value bits.
pub const CELL_MASK: u128 = 0b111111111;

/// The `k`-th 9-bit sub-mask of a packed line.
pub open spec fn sub_mask(line: u128, k: int) -> u16 {
    ((line >> ((k * 9) as u128)) & 0x1ffu128) as u16
}

/// The one-hot mask of a value; zero for the empty value.
pub open spec fn value_mask(v: u8) -> u16 {
    if 1 <= v <= 9 {
        1u16 << ((v - 1) as u16)
    } else {
        0
    }
}

/// Whether the bit of value `v` is set in `m`.
pub open spec fn has_value(m: u16, v: u8) -> bool {
    1 <= v <= 9 && m & (1u16 << ((v - 1) as u16)) != 0
}

/// The value a sub-mask stands for: its lowest set bit, or 0 if none.
pub open spec fn mask_value(m: u16) -> u8 {
    if m == 0 {
        0
    } else {
        (u16_trailing_zeros(m) + 1) as u8
    }
}

/// A mask with exactly one bit set.
pub open spec fn is_single(m: u16) -> bool {
    m != 0 && m & ((m - 1) as u16) == 0
}

/// The empty line has empty sub-masks.
pub proof fn lemma_sub_mask_zero(k: int)
    requires
        0 <= k < 9,
    ensures
        sub_mask(0, k) == 0,
{
    let s = (k * 9) as u128;
    assert((0u128 >> s) & 0x1ffu128 == 0) by (bit_vector);
}

/// A sub-mask has nine bits, and is what shifting and masking the
/// line gives.
pub proof fn lemma_sub_mask_bound(line: u128, k: int)
    requires
        0 <= k < 9,
    ensures
        sub_mask(line, k) <= 0x1ff,
        sub_mask(line, k) as u128 == (line >> ((k * 9) as u128)) & 0x1ffu128,
{
    let s = (k * 9) as u128;
    assert((line >> s) & 0x1ffu128 <= 0x1ff) by (bit_vector);
}

/// Or-ing into one slot, stated over machine integers.
proof fn lemma_sub_mask_or_bv(line: u128, m: u16, c: u128, k: u128)
    by (bit_vector)
    requires
        m <= 0x1ff,
        c < 9,
        k < 9,
    ensures
        (((line | ((m as u128) << ((c * 9) as u128))) >> ((k * 9) as u128)) & 0x1ffu128) as u16 == (
        if k == c {
            (((line >> ((k * 9) as u128)) & 0x1ffu128) as u16) | m
        } else {
            ((line >> ((k * 9) as u128)) & 0x1ffu128) as u16
        }),
{
}

/// Clearing from one slot, stated over machine integers.
proof fn lemma_sub_mask_clear_bv(line: u128, m: u16, c: u128, k: u128)
    by (bit_vector)
    requires
        m <= 0x1ff,
        c < 9,
        k < 9,
    ensures
        (((line & !((m as u128) << ((c * 9) as u128))) >> ((k * 9) as u128)) & 0x1ffu128) as u16
            == (if k == c {
            (((line >> ((k * 9) as u128)) & 0x1ffu128) as u16) & !m
        } else {
            ((line >> ((k * 9) as u128)) & 0x1ffu128) as u16
        }),
{
}

/// Or-ing a mask into slot `c` changes that sub-mask and no other.
pub proof fn lemma_sub_mask_or(line: u128, m: u16, c: int)
    requires
        m <= 0x1ff,
        0 <= c < 9,
    ensures
        forall|k: int|
            0 <= k < 9 ==> #[trigger] sub_mask(line | ((m as u128) << ((c * 9) as u128)), k) == (
            if k == c {
                sub_mask(line, k) | m
            } else {
                sub_mask(line, k)
            }),
{
    assert forall|k: int| 0 <= k < 9 implies #[trigger] sub_mask(
        line | ((m as u128) << ((c * 9) as u128)),
        k,
    ) == (if k == c {
        sub_mask(line, k) | m
    } else {
        sub_mask(line, k)
    }) by {
        lemma_sub_mask_or_bv(line, m, c as u128, k as u128);
    }
}

/// Clearing a mask from slot `c` changes that sub-mask and no other.
pub proof fn lemma_sub_mask_clear(line: u128, m: u16, c: int)
    requires
        m <= 0x1ff,
        0 <= c < 9,
    ensures
        forall|k: int|
            0 <= k < 9 ==> #[trigger] sub_mask(line & !((m as u128) << ((c * 9) as u128)), k) == (
            if k == c {
                sub_mask(line, k) & !m
            } else {
                sub_mask(line, k)
            }),
{
    assert forall|k: int| 0 <= k < 9 implies #[trigger] sub_mask(
        line & !((m as u128) << ((c * 9) as u128)),
        k,
    ) == (if k == c {
        sub_mask(line, k) & !m
    } else {
        sub_mask(line, k)
    }) by {
        lemma_sub_mask_clear_bv(line, m, c as u128, k as u128);
    }
}

/// Shifting a line right by one slot renumbers its sub-masks.
pub proof fn lemma_sub_mask_shift(line: u128, k: int)
    requires
        0 <= k < 8,
    ensures
        sub_mask(line >> 9u128, k) == sub_mask(line, k + 1),
{
    let s = (k * 9) as u128;
    let t = ((k + 1) * 9) as u128;
    assert(s < 72 && t == s + 9 ==> ((line >> 9u128) >> s) & 0x1ffu128 == (line >> t) & 0x1ffu128)
        by (bit_vector);
}

/// The mask of a value is a single bit within the low nine, and the
/// value is read back from it.
pub proof fn lemma_value_mask(v: u8)
    requires
        v <= 9,
    ensures
        value_mask(v) <= 0x1ff,
        mask_value(value_mask(v)) == v,
        v != 0 ==> is_single(value_mask(v)),
        v == 0 <==> value_mask(v) == 0,
        forall|w: u8| has_value(value_mask(v), w) <==> (w == v && v != 0),
{
    let m = value_mask(v);
    if v != 0 {
        let k = (v - 1) as u16;
        assert(k < 9 ==> (1u16 << k) <= 0x1ff && (1u16 << k) != 0) by (bit_vector);
        assert(k < 9 ==> (1u16 << k) & (((1u16 << k) - 1) as u16) == 0) by (bit_vector);
        axiom_u16_trailing_zeros(m);
        let t = u16_trailing_zeros(m) as u16;
        assert(k < 9 && t < 16 && ((1u16 << k) >> t) & 1u16 == 1u16 ==> t == k) by (bit_vector);
    }
    assert forall|w: u8| has_value(m, w) <==> (w == v && v != 0) by {
        if 1 <= w <= 9 {
            let j = (w - 1) as u16;
            if v != 0 {
                let k = (v - 1) as u16;
                assert(k < 9 && j < 9 ==> (((1u16 << k) & (1u16 << j) != 0) <==> j == k))
                    by (bit_vector);
            } else {
                assert(0u16 & (1u16 << j) == 0) by (bit_vector);
            }
        }
    }
}

/// A mask within nine bits that has one bit set is the mask of its value.
pub proof fn lemma_single_is_value_mask(m: u16)
    requires
        m <= 0x1ff,
        is_single(m),
    ensures
        1 <= mask_value(m) <= 9,
        m == value_mask(mask_value(m)),
{
    axiom_u16_trailing_zeros(m);
    let t = u16_trailing_zeros(m) as u16;
    assert(t < 16 && m <= 0x1ff && (m >> t) & 1u16 == 1u16 ==> t < 9) by (bit_vector);
    assert(t < 9 && m != 0 && m & ((m - 1) as u16) == 0 && (m >> t) & 1u16 == 1u16 ==> m == 1u16
        << t) by (bit_vector);
}

/// Two value masks overlap exactly when they are of the same value.
pub proof fn lemma_value_masks_overlap(a: u8, b: u8)
    requires
        a <= 9,
        b <= 9,
    ensures
        (value_mask(a) & value_mask(b) != 0) <==> (a == b && a != 0),
{
    lemma_value_mask(a);
    if 1 <= b {
        assert(has_value(value_mask(a), b) <==> (b == a && a != 0));
    } else {
        let m = value_mask(a);
        assert(m & 0u16 == 0) by (bit_vector);
    }
}

/// Clearing the mask of `w` takes `w` out and leaves the other values.
pub proof fn lemma_clear_value(m: u16, w: u8, v: u8)
    requires
        w <= 9,
    ensures
        has_value(m & !value_mask(w), v) <==> (has_value(m, v) && v != w),
        m <= 0x1ff ==> m & !value_mask(w) <= 0x1ff,
{
    let c = value_mask(w);
    assert(m <= 0x1ff ==> m & !c <= 0x1ff) by (bit_vector);
    if 1 <= v <= 9 {
        let j = (v - 1) as u16;
        if w != 0 {
            let k = (w - 1) as u16;
            assert(j < 9 && k < 9 ==> (((m & !(1u16 << k)) & (1u16 << j) != 0) <==> (m & (1u16 << j)
                != 0 && j != k))) by (bit_vector);
        } else {
            assert(m & !0u16 == m) by (bit_vector);
        }
    }
}

/// Clearing the bits of `b` from `a` leaves the values of `a` that
/// `b` does not have.
pub proof fn lemma_clear_mask(a: u16, b: u16, w: u8)
    ensures
        has_value(a & !b, w) <==> (has_value(a, w) && !has_value(b, w)),
        a <= 0x1ff ==> a & !b <= 0x1ff,
{
    assert(a <= 0x1ff ==> a & !b <= 0x1ff) by (bit_vector);
    if 1 <= w <= 9 {
        let j = (w - 1) as u16;
        assert(((a & !b) & (1u16 << j) != 0) <==> (a & (1u16 << j) != 0 && !(b & (1u16 << j) != 0)))
            by (bit_vector);
    }
}

/// Two masks of nine bits that hold the same values are the same mask.
pub proof fn lemma_same_values(a: u16, b: u16)
    requires
        a <= 0x1ff,
        b <= 0x1ff,
        forall|w: u8| has_value(a, w) == has_value(b, w),
    ensures
        a == b,
{
    assert(has_value(a, 1) == has_value(b, 1));
    assert(has_value(a, 2) == has_value(b, 2));
    assert(has_value(a, 3) == has_value(b, 3));
    assert(has_value(a, 4) == has_value(b, 4));
    assert(has_value(a, 5) == has_value(b, 5));
    assert(has_value(a, 6) == has_value(b, 6));
    assert(has_value(a, 7) == has_value(b, 7));
    assert(has_value(a, 8) == has_value(b, 8));
    assert(has_value(a, 9) == has_value(b, 9));
    assert(a <= 0x1ff && b <= 0x1ff && ((a & (1u16 << 0u16) != 0) == (b & (1u16 << 0u16) != 0)) && ((a
        & (1u16 << 1u16) != 0) == (b & (1u16 << 1u16) != 0)) && ((a & (1u16 << 2u16) != 0) == (b & (
    1u16 << 2u16) != 0)) && ((a & (1u16 << 3u16) != 0) == (b & (1u16 << 3u16) != 0)) && ((a & (1u16
        << 4u16) != 0) == (b & (1u16 << 4u16) != 0)) && ((a & (1u16 << 5u16) != 0) == (b & (1u16
        << 5u16) != 0)) && ((a & (1u16 << 6u16) != 0) == (b & (1u16 << 6u16) != 0)) && ((a & (1u16
        << 7u16) != 0) == (b & (1u16 << 7u16) != 0)) && ((a & (1u16 << 8u16) != 0) == (b & (1u16
        << 8u16) != 0)) ==> a == b) by (bit_vector);
}

/// The full mask holds every value from 1 to 9.
pub proof fn lemma_full_mask()
    ensures
        forall|v: u8| has_value(0x1ff, v) <==> 1 <= v <= 9,
{
    assert forall|v: u8| has_value(0x1ff, v) <==> 1 <= v <= 9 by {
        if 1 <= v <= 9 {
            let j = (v - 1) as u16;
            assert(j < 9 ==> 0x1ffu16 & (1u16 << j) != 0) by (bit_vector);
        }
    }
}

/// The empty mask holds no value.
pub proof fn lemma_empty_mask()
    ensures
        forall|v: u8| !has_value(0, v),
{
    assert forall|v: u8| !has_value(0, v) by {
        if 1 <= v <= 9 {
            let j = (v - 1) as u16;
            assert(0u16 & (1u16 << j) == 0) by (bit_vector);
        }
    }
}

} // verus!
