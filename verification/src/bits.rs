//! Facts about the bits of machine words.

use vstd::prelude::*;
use vstd::std_specs::bits::*;

verus! {

/// Bit `i` of the word `w`.
pub open spec fn bit(w: u64, i: int) -> bool {
    0 <= i < 64 && (w >> (i as u64)) & 1u64 == 1u64
}

/// Setting one bit changes that bit alone.
pub proof fn lemma_bit_set(w: u64, i: u64)
    requires
        i < 64,
    ensures
        forall|j: int| 0 <= j < 64 ==> #[trigger] bit(w | (1u64 << i), j) == (bit(w, j) || j == i),
{
    assert forall|j: int| 0 <= j < 64 implies #[trigger] bit(w | (1u64 << i), j) == (bit(w, j) || j
        == i) by {
        let k = j as u64;
        assert((((w | (1u64 << i)) >> k) & 1u64 == 1u64) == ((w >> k) & 1u64 == 1u64 || k == i))
            by (bit_vector)
            requires
                i < 64,
                k < 64,
        ;
    }
}

/// Clearing one bit changes that bit alone.
pub proof fn lemma_bit_clear(w: u64, i: u64)
    requires
        i < 64,
    ensures
        forall|j: int|
            0 <= j < 64 ==> #[trigger] bit(w & !(1u64 << i), j) == (bit(w, j) && j != i),
{
    assert forall|j: int| 0 <= j < 64 implies #[trigger] bit(w & !(1u64 << i), j) == (bit(w, j)
        && j != i) by {
        let k = j as u64;
        assert((((w & !(1u64 << i)) >> k) & 1u64 == 1u64) == ((w >> k) & 1u64 == 1u64 && k != i))
            by (bit_vector)
            requires
                i < 64,
                k < 64,
        ;
    }
}

/// Masking with a single bit tests that bit.
pub proof fn lemma_bit_test(w: u64, i: u64)
    requires
        i < 64,
    ensures
        (w & (1u64 << i) != 0) == bit(w, i as int),
{
    assert((w & (1u64 << i) != 0) == ((w >> i) & 1u64 == 1u64)) by (bit_vector)
        requires
            i < 64,
    ;
}

/// Every bit of the all-ones word is set, and none of zero is.
pub proof fn lemma_bit_constants()
    ensures
        forall|j: int| 0 <= j < 64 ==> #[trigger] bit(u64::MAX, j),
        forall|j: int| !#[trigger] bit(0u64, j),
{
    assert forall|j: int| 0 <= j < 64 implies #[trigger] bit(u64::MAX, j) by {
        let k = j as u64;
        assert((0xffff_ffff_ffff_ffffu64 >> k) & 1u64 == 1u64) by (bit_vector)
            requires
                k < 64,
        ;
    }
    assert forall|j: int| !#[trigger] bit(0u64, j) by {
        let k = j as u64;
        assert((0u64 >> k) & 1u64 == 0u64) by (bit_vector);
    }
}

/// A word that is not all ones has a clear bit: the one `trailing_ones` names,
/// below which every bit is set.
pub proof fn lemma_trailing_ones(w: u64)
    ensures
        u64_trailing_ones(w) <= 64,
        w == u64::MAX <==> u64_trailing_ones(w) == 64,
        w != u64::MAX ==> !bit(w, u64_trailing_ones(w) as int),
        forall|j: int| 0 <= j < u64_trailing_ones(w) ==> #[trigger] bit(w, j),
{
    axiom_u64_trailing_ones(w);
    assert forall|j: int| 0 <= j < u64_trailing_ones(w) implies #[trigger] bit(w, j) by {
        assert((w >> (j as u64)) & 1u64 == 1u64);
    }
}

/// A word that is not zero has a set bit: the one `trailing_zeros` names,
/// below which every bit is clear.
pub proof fn lemma_trailing_zeros(w: u64)
    ensures
        u64_trailing_zeros(w) <= 64,
        w == 0 <==> u64_trailing_zeros(w) == 64,
        w != 0 ==> bit(w, u64_trailing_zeros(w) as int),
        forall|j: int| 0 <= j < u64_trailing_zeros(w) ==> !#[trigger] bit(w, j),
{
    axiom_u64_trailing_zeros(w);
    assert forall|j: int| 0 <= j < u64_trailing_zeros(w) implies !#[trigger] bit(w, j) by {
        assert((w >> (j as u64)) & 1u64 == 0u64);
    }
}

/// The clear bits of `w` at or above `k`.
pub proof fn lemma_clear_from(w: u64, k: u64)
    requires
        k < 64,
    ensures
        forall|j: int|
            0 <= j < 64 ==> #[trigger] bit(!w & (!0u64 << k), j) == (!bit(w, j) && k <= j),
{
    assert forall|j: int| 0 <= j < 64 implies #[trigger] bit(!w & (!0u64 << k), j) == (!bit(w, j)
        && k <= j) by {
        let i = j as u64;
        assert((((!w & (!0u64 << k)) >> i) & 1u64 == 1u64) == (!((w >> i) & 1u64 == 1u64) && k
            <= i)) by (bit_vector)
            requires
                k < 64,
                i < 64,
        ;
    }
}

/// Shifting right by `k` moves bit `j + k` to bit `j`.
pub proof fn lemma_bit_shr(w: u64, k: u64)
    requires
        k < 64,
    ensures
        forall|j: int| 0 <= j < 64 ==> #[trigger] bit(w >> k, j) == bit(w, j + k),
{
    assert forall|j: int| 0 <= j < 64 implies #[trigger] bit(w >> k, j) == bit(w, j + k) by {
        let i = j as u64;
        assert((((w >> k) >> i) & 1u64 == 1u64) == ((i + k) < 64 && (w >> ((i + k) as u64)) & 1u64
            == 1u64)) by (bit_vector)
            requires
                k < 64,
                i < 64,
        ;
    }
}

/// Shifting left by `k` moves bit `j - k` to bit `j`.
pub proof fn lemma_bit_shl(w: u64, k: u64)
    requires
        k < 64,
    ensures
        forall|j: int| 0 <= j < 64 ==> #[trigger] bit(w << k, j) == bit(w, j - k),
{
    assert forall|j: int| 0 <= j < 64 implies #[trigger] bit(w << k, j) == bit(w, j - k) by {
        let i = j as u64;
        assert((((w << k) >> i) & 1u64 == 1u64) == (i >= k && (w >> ((i - k) as u64)) & 1u64
            == 1u64)) by (bit_vector)
            requires
                k < 64,
                i < 64,
        ;
    }
}

/// Bits of a conjunction and of a disjunction.
pub proof fn lemma_bit_and_or(v: u64, w: u64)
    ensures
        forall|j: int| 0 <= j < 64 ==> #[trigger] bit(v & w, j) == (bit(v, j) && bit(w, j)),
        forall|j: int| 0 <= j < 64 ==> #[trigger] bit(v | w, j) == (bit(v, j) || bit(w, j)),
{
    assert forall|j: int| 0 <= j < 64 implies #[trigger] bit(v & w, j) == (bit(v, j) && bit(w, j))
        && bit(v | w, j) == (bit(v, j) || bit(w, j)) by {
        let i = j as u64;
        assert((((v & w) >> i) & 1u64 == 1u64) == ((v >> i) & 1u64 == 1u64 && (w >> i) & 1u64
            == 1u64)) by (bit_vector);
        assert((((v | w) >> i) & 1u64 == 1u64) == ((v >> i) & 1u64 == 1u64 || (w >> i) & 1u64
            == 1u64)) by (bit_vector);
    }
    assert forall|j: int| 0 <= j < 64 implies #[trigger] bit(v | w, j) == (bit(v, j) || bit(w, j)) by {
        assert(bit(v & w, j) == (bit(v, j) && bit(w, j)));
    }
}

/// Setting one of the lowest eight bits of a byte leaves a byte.
pub proof fn lemma_byte_bit_set(w: u64, i: u64)
    requires
        w < 256,
        i < 8,
    ensures
        (w | (1u64 << i)) < 256,
{
    assert((w | (1u64 << i)) < 256) by (bit_vector)
        requires
            w < 256,
            i < 8,
    ;
}

/// The mask of the `n` lowest bits.
pub open spec fn low_mask(n: u64) -> u64 {
    if n >= 64 {
        u64::MAX
    } else {
        ((1u64 << n) - 1) as u64
    }
}

/// The bits of `low_mask(n)` are those below `n`.
pub proof fn lemma_low_mask(n: u64)
    requires
        n <= 64,
    ensures
        n < 64 ==> (1u64 << n) >= 1,
        forall|j: int| 0 <= j < 64 ==> #[trigger] bit(low_mask(n), j) == (j < n),
{
    if n < 64 {
        assert((1u64 << n) >= 1) by (bit_vector)
            requires
                n < 64,
        ;
        assert forall|j: int| 0 <= j < 64 implies #[trigger] bit(low_mask(n), j) == (j < n) by {
            let i = j as u64;
            assert((((((1u64 << n) - 1) as u64 >> i) & 1u64) == 1u64) == (i < n)) by (bit_vector)
                requires
                    n < 64,
                    i < 64,
            ;
        }
    } else {
        lemma_bit_constants();
    }
}

/// The `n` bits of `w` from bit `s` upwards.
pub open spec fn field(w: u64, s: u64, n: u64) -> u64 {
    (w >> s) & low_mask(n)
}

/// `w` with the `n` bits from bit `s` upwards replaced by `v`.
pub open spec fn with_field(w: u64, s: u64, n: u64, v: u64) -> u64 {
    (w & !(low_mask(n) << s)) | (v << s)
}

/// Reads a field.
pub fn get_field(w: u64, s: u64, n: u64) -> (r: u64)
    requires
        n < 64,
        s < 64,
    ensures
        r == field(w, s, n),
        r <= low_mask(n),
{
    proof {
        lemma_low_mask(n);
        lemma_field_bound(w, s, n);
    }
    (w >> s) & ((1u64 << n) - 1)
}

/// Replaces a field.
pub fn set_field(w: u64, s: u64, n: u64, v: u64) -> (r: u64)
    requires
        n < 64,
        s < 64,
    ensures
        r == with_field(w, s, n, v),
{
    proof {
        lemma_low_mask(n);
    }
    (w & !(((1u64 << n) - 1) << s)) | (v << s)
}

/// A field is no larger than the mask of its width.
pub proof fn lemma_field_bound(w: u64, s: u64, n: u64)
    requires
        n < 64,
        s < 64,
    ensures
        field(w, s, n) <= low_mask(n),
{
    let m = low_mask(n);
    assert((w >> s) & m <= m) by (bit_vector);
}

/// Replacing a field gives it the new value and leaves every disjoint field
/// alone.
pub proof fn lemma_with_field(w: u64, s: u64, n: u64, v: u64)
    requires
        n < 64,
        s + n <= 64,
        s < 64,
        v <= low_mask(n),
    ensures
        field(with_field(w, s, n, v), s, n) == v,
        forall|s2: u64, n2: u64|
            s2 < 64 && n2 < 64 && s2 + n2 <= 64 && (s2 + n2 <= s || s + n <= s2)
                ==> #[trigger] field(with_field(w, s, n, v), s2, n2) == field(w, s2, n2),
{
    assert((((w & !((((1u64 << n) - 1) as u64) << s)) | (v << s)) >> s) & (((1u64 << n) - 1) as u64)
        == v) by (bit_vector)
        requires
            n < 64,
            s < 64,
            s + n <= 64,
            v <= (((1u64 << n) - 1) as u64),
    ;
    assert forall|s2: u64, n2: u64|
        s2 < 64 && n2 < 64 && s2 + n2 <= 64 && (s2 + n2 <= s || s + n <= s2) implies #[trigger] field(
        with_field(w, s, n, v),
        s2,
        n2,
    ) == field(w, s2, n2) by {
        assert((((w & !((((1u64 << n) - 1) as u64) << s)) | (v << s)) >> s2) & (((1u64 << n2)
            - 1) as u64) == (w >> s2) & (((1u64 << n2) - 1) as u64)) by (bit_vector)
            requires
                n < 64,
                n2 < 64,
                s < 64,
                s2 < 64,
                s + n <= 64,
                s2 + n2 <= 64,
                s2 + n2 <= s || s + n <= s2,
                v <= (((1u64 << n) - 1) as u64),
        ;
    }
}

/// The widths that the packed formats use, as numbers.
pub proof fn lemma_mask_values()
    ensures
        low_mask(1) == 1,
        low_mask(2) == 3,
        low_mask(3) == 7,
        low_mask(4) == 15,
        low_mask(8) == 0xff,
        low_mask(19) == 0x7_ffff,
        low_mask(24) == 0xff_ffff,
{
    assert((1u64 << 1u64) == 2 && (1u64 << 2u64) == 4 && (1u64 << 3u64) == 8 && (1u64 << 4u64)
        == 16 && (1u64 << 8u64) == 0x100 && (1u64 << 19u64) == 0x8_0000 && (1u64 << 24u64) == 0x100_0000) by (bit_vector);
}

} // verus!
