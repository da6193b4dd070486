use vstd::prelude::*;

verus! {

/// Whether bit `k` of `mask` is set.
pub open spec fn bit_set(mask: u8, k: u8) -> bool {
    (mask >> k) & 1 == 1
}

/// `mask` with bit `k` set if `on` and cleared if not.
pub open spec fn with_bit(mask: u8, k: u8, on: bool) -> u8 {
    if on {
        mask | (1u8 << k)
    } else {
        mask & !(1u8 << k)
    }
}

/// Writing a bit changes that bit to what was asked and no other.
pub proof fn lemma_with_bit(mask: u8, k: u8, on: bool)
    requires
        k < 8,
    ensures
        bit_set(with_bit(mask, k, on), k) == on,
        forall|j: u8|
            j < 8 && j != k ==> #[trigger] bit_set(with_bit(mask, k, on), j) == bit_set(mask, j),
        with_bit(with_bit(mask, k, on), k, on) == with_bit(mask, k, on),
        bit_set(mask, k) == on ==> with_bit(mask, k, on) == mask,
        bit_set(mask, k) != on ==> with_bit(mask, k, on) != mask,
{
    let set = mask | (1u8 << k);
    let cleared = mask & !(1u8 << k);
    assert((set >> k) & 1 == 1) by (bit_vector)
        requires
            k < 8,
            set == mask | (1u8 << k),
    ;
    assert((cleared >> k) & 1 == 0) by (bit_vector)
        requires
            k < 8,
            cleared == mask & !(1u8 << k),
    ;
    assert(forall|j: u8| j < 8 && j != k ==> (set >> j) & 1 == (mask >> j) & 1) by (bit_vector)
        requires
            k < 8,
            set == mask | (1u8 << k),
    ;
    assert(forall|j: u8| j < 8 && j != k ==> (cleared >> j) & 1 == (mask >> j) & 1)
        by (bit_vector)
        requires
            k < 8,
            cleared == mask & !(1u8 << k),
    ;
    assert(set | (1u8 << k) == set) by (bit_vector)
        requires
            set == mask | (1u8 << k),
    ;
    assert(cleared & !(1u8 << k) == cleared) by (bit_vector)
        requires
            cleared == mask & !(1u8 << k),
    ;
    assert((mask >> k) & 1 == 1 ==> set == mask) by (bit_vector)
        requires
            k < 8,
            set == mask | (1u8 << k),
    ;
    assert((mask >> k) & 1 != 1 ==> cleared == mask) by (bit_vector)
        requires
            k < 8,
            cleared == mask & !(1u8 << k),
    ;
    assert((mask >> k) & 1 == 0 || (mask >> k) & 1 == 1) by (bit_vector);
}

/// Two masks with the same eight bits are the same mask.
pub proof fn lemma_bits_decide(a: u8, b: u8)
    requires
        forall|j: u8| j < 8 ==> bit_set(a, j) == bit_set(b, j),
    ensures
        a == b,
{
    assert(bit_set(a, 0) == bit_set(b, 0));
    assert(bit_set(a, 1) == bit_set(b, 1));
    assert(bit_set(a, 2) == bit_set(b, 2));
    assert(bit_set(a, 3) == bit_set(b, 3));
    assert(bit_set(a, 4) == bit_set(b, 4));
    assert(bit_set(a, 5) == bit_set(b, 5));
    assert(bit_set(a, 6) == bit_set(b, 6));
    assert(bit_set(a, 7) == bit_set(b, 7));
    assert(a == b) by (bit_vector)
        requires
            ((a >> 0u8) & 1 == 1) == ((b >> 0u8) & 1 == 1),
            ((a >> 1u8) & 1 == 1) == ((b >> 1u8) & 1 == 1),
            ((a >> 2u8) & 1 == 1) == ((b >> 2u8) & 1 == 1),
            ((a >> 3u8) & 1 == 1) == ((b >> 3u8) & 1 == 1),
            ((a >> 4u8) & 1 == 1) == ((b >> 4u8) & 1 == 1),
            ((a >> 5u8) & 1 == 1) == ((b >> 5u8) & 1 == 1),
            ((a >> 6u8) & 1 == 1) == ((b >> 6u8) & 1 == 1),
            ((a >> 7u8) & 1 == 1) == ((b >> 7u8) & 1 == 1),
    ;
}

/// Whether bit `k` of `mask` is set.
pub fn test_bit(mask: u8, k: u8) -> (r: bool)
    requires
        k < 8,
    ensures
        r == bit_set(mask, k),
{
    (mask >> k) & 1 == 1
}

/// `mask` with bit `k` set if `on` and cleared if not.
pub fn write_bit(mask: u8, k: u8, on: bool) -> (r: u8)
    requires
        k < 8,
    ensures
        r == with_bit(mask, k, on),
{
    if on {
        mask | (1u8 << k)
    } else {
        mask & !(1u8 << k)
    }
}

} // verus!
