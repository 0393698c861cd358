use vstd::prelude::*;

verus! {

/// Whether bit `i` of `x` is set.
pub open spec fn bit(x: u64, i: u64) -> bool {
    (x >> i) & 1u64 == 1u64
}

/// A word whose 64 bits are all clear is zero.
proof fn lemma_all_clear_is_zero(z: u64)
    by (bit_vector)
    requires
        (z >> 0u64) & 1u64 != 1u64 && (z >> 1u64) & 1u64 != 1u64 && (z >> 2u64) & 1u64 != 1u64 && (z >> 3u64) & 1u64 != 1u64 && (z >> 4u64) & 1u64 != 1u64 && (z >> 5u64) & 1u64 != 1u64 && (z >> 6u64) & 1u64 != 1u64 && (z >> 7u64) & 1u64 != 1u64 && (z >> 8u64) & 1u64 != 1u64 && (z >> 9u64) & 1u64 != 1u64 && (z >> 10u64) & 1u64 != 1u64 && (z >> 11u64) & 1u64 != 1u64 && (z >> 12u64) & 1u64 != 1u64 && (z >> 13u64) & 1u64 != 1u64 && (z >> 14u64) & 1u64 != 1u64 && (z >> 15u64) & 1u64 != 1u64 && (z >> 16u64) & 1u64 != 1u64 && (z >> 17u64) & 1u64 != 1u64 && (z >> 18u64) & 1u64 != 1u64 && (z >> 19u64) & 1u64 != 1u64 && (z >> 20u64) & 1u64 != 1u64 && (z >> 21u64) & 1u64 != 1u64 && (z >> 22u64) & 1u64 != 1u64 && (z >> 23u64) & 1u64 != 1u64 && (z >> 24u64) & 1u64 != 1u64 && (z >> 25u64) & 1u64 != 1u64 && (z >> 26u64) & 1u64 != 1u64 && (z >> 27u64) & 1u64 != 1u64 && (z >> 28u64) & 1u64 != 1u64 && (z >> 29u64) & 1u64 != 1u64 && (z >> 30u64) & 1u64 != 1u64 && (z >> 31u64) & 1u64 != 1u64 && (z >> 32u64) & 1u64 != 1u64 && (z >> 33u64) & 1u64 != 1u64 && (z >> 34u64) & 1u64 != 1u64 && (z >> 35u64) & 1u64 != 1u64 && (z >> 36u64) & 1u64 != 1u64 && (z >> 37u64) & 1u64 != 1u64 && (z >> 38u64) & 1u64 != 1u64 && (z >> 39u64) & 1u64 != 1u64 && (z >> 40u64) & 1u64 != 1u64 && (z >> 41u64) & 1u64 != 1u64 && (z >> 42u64) & 1u64 != 1u64 && (z >> 43u64) & 1u64 != 1u64 && (z >> 44u64) & 1u64 != 1u64 && (z >> 45u64) & 1u64 != 1u64 && (z >> 46u64) & 1u64 != 1u64 && (z >> 47u64) & 1u64 != 1u64 && (z >> 48u64) & 1u64 != 1u64 && (z >> 49u64) & 1u64 != 1u64 && (z >> 50u64) & 1u64 != 1u64 && (z >> 51u64) & 1u64 != 1u64 && (z >> 52u64) & 1u64 != 1u64 && (z >> 53u64) & 1u64 != 1u64 && (z >> 54u64) & 1u64 != 1u64 && (z >> 55u64) & 1u64 != 1u64 && (z >> 56u64) & 1u64 != 1u64 && (z >> 57u64) & 1u64 != 1u64 && (z >> 58u64) & 1u64 != 1u64 && (z >> 59u64) & 1u64 != 1u64 && (z >> 60u64) & 1u64 != 1u64 && (z >> 61u64) & 1u64 != 1u64 && (z >> 62u64) & 1u64 != 1u64 && (z >> 63u64) & 1u64 != 1u64,
    ensures
        z == 0u64,
{
}

/// Two words that agree on every bit are equal.
pub proof fn lemma_bits_ext(x: u64, y: u64)
    requires
        forall|i: u64| i < 64 ==> #[trigger] bit(x, i) == bit(y, i),
    ensures
        x == y,
{
    let z = x ^ y;
    assert forall|i: u64| i < 64 implies !#[trigger] bit(z, i) by {
        assert(bit(x, i) == bit(y, i));
        lemma_xor_bit(x, y, i);
    }
        assert(!bit(z, 0u64));
        assert(!bit(z, 1u64));
        assert(!bit(z, 2u64));
        assert(!bit(z, 3u64));
        assert(!bit(z, 4u64));
        assert(!bit(z, 5u64));
        assert(!bit(z, 6u64));
        assert(!bit(z, 7u64));
        assert(!bit(z, 8u64));
        assert(!bit(z, 9u64));
        assert(!bit(z, 10u64));
        assert(!bit(z, 11u64));
        assert(!bit(z, 12u64));
        assert(!bit(z, 13u64));
        assert(!bit(z, 14u64));
        assert(!bit(z, 15u64));
        assert(!bit(z, 16u64));
        assert(!bit(z, 17u64));
        assert(!bit(z, 18u64));
        assert(!bit(z, 19u64));
        assert(!bit(z, 20u64));
        assert(!bit(z, 21u64));
        assert(!bit(z, 22u64));
        assert(!bit(z, 23u64));
        assert(!bit(z, 24u64));
        assert(!bit(z, 25u64));
        assert(!bit(z, 26u64));
        assert(!bit(z, 27u64));
        assert(!bit(z, 28u64));
        assert(!bit(z, 29u64));
        assert(!bit(z, 30u64));
        assert(!bit(z, 31u64));
        assert(!bit(z, 32u64));
        assert(!bit(z, 33u64));
        assert(!bit(z, 34u64));
        assert(!bit(z, 35u64));
        assert(!bit(z, 36u64));
        assert(!bit(z, 37u64));
        assert(!bit(z, 38u64));
        assert(!bit(z, 39u64));
        assert(!bit(z, 40u64));
        assert(!bit(z, 41u64));
        assert(!bit(z, 42u64));
        assert(!bit(z, 43u64));
        assert(!bit(z, 44u64));
        assert(!bit(z, 45u64));
        assert(!bit(z, 46u64));
        assert(!bit(z, 47u64));
        assert(!bit(z, 48u64));
        assert(!bit(z, 49u64));
        assert(!bit(z, 50u64));
        assert(!bit(z, 51u64));
        assert(!bit(z, 52u64));
        assert(!bit(z, 53u64));
        assert(!bit(z, 54u64));
        assert(!bit(z, 55u64));
        assert(!bit(z, 56u64));
        assert(!bit(z, 57u64));
        assert(!bit(z, 58u64));
        assert(!bit(z, 59u64));
        assert(!bit(z, 60u64));
        assert(!bit(z, 61u64));
        assert(!bit(z, 62u64));
        assert(!bit(z, 63u64));
    lemma_all_clear_is_zero(z);
    lemma_xor_zero(x, y);
}

proof fn lemma_xor_bit(x: u64, y: u64, i: u64)
    by (bit_vector)
    requires
        i < 64,
    ensures
        ((x ^ y) >> i) & 1u64 == 1u64 <==> (((x >> i) & 1u64 == 1u64) != ((y >> i) & 1u64 == 1u64)),
{
}

proof fn lemma_xor_zero(x: u64, y: u64)
    by (bit_vector)
    requires
        x ^ y == 0u64,
    ensures
        x == y,
{
}

/// Setting bit `s` changes bit `s` only.
pub proof fn lemma_set_bit(x: u64, s: u64, i: u64)
    by (bit_vector)
    requires
        s < 64,
        i < 64,
    ensures
        ((x | (1u64 << s)) >> i) & 1u64 == 1u64 <==> (((x >> i) & 1u64 == 1u64) || i == s),
{
}

/// Clearing bit `s` changes bit `s` only.
pub proof fn lemma_clear_bit(x: u64, s: u64, i: u64)
    by (bit_vector)
    requires
        s < 64,
        i < 64,
    ensures
        ((x & !(1u64 << s)) >> i) & 1u64 == 1u64 <==> (((x >> i) & 1u64 == 1u64) && i != s),
{
}

/// Masking with a single bit tests that bit.
pub proof fn lemma_test_bit(x: u64, s: u64)
    by (bit_vector)
    requires
        s < 64,
    ensures
        (x & (1u64 << s)) != 0u64 <==> (x >> s) & 1u64 == 1u64,
{
}

} // verus!
