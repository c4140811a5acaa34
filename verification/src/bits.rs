use vstd::prelude::*;

verus! {

/// Number of set bits of a natural number.
pub open spec fn popcount(x: nat) -> nat
    decreases x,
{
    if x == 0 {
        0
    } else {
        (x % 2) + popcount(x / 2)
    }
}

/// Number of bit positions in which two bytes differ.
pub open spec fn byte_distance(a: u8, b: u8) -> nat {
    popcount((a ^ b) as nat)
}

/// Counts the set bits of a byte.
pub fn count_ones_u8(x: u8) -> (n: u32)
    ensures
        n == popcount(x as nat),
        n <= 8,
{
    let mut v: u8 = x;
    let mut n: u32 = 0;
    proof {
        lemma_popcount_u8_bound(x);
    }
    while v > 0
        invariant
            n + popcount(v as nat) == popcount(x as nat),
            popcount(x as nat) <= 8,
        decreases v,
    {
        n = n + (v % 2) as u32;
        v = v / 2;
    }
    n
}

/// A byte has at most eight set bits.
pub proof fn lemma_popcount_u8_bound(x: u8)
    ensures
        popcount(x as nat) <= 8,
{
    vstd::arithmetic::power2::lemma2_to64();
    lemma_popcount_below_pow2(x as nat, 8);
}

proof fn lemma_popcount_below_pow2(x: nat, k: nat)
    requires
        x < vstd::arithmetic::power2::pow2(k),
    ensures
        popcount(x) <= k,
    decreases k,
{
    vstd::arithmetic::power2::lemma2_to64();
    if k == 0 {
        assert(x == 0);
    } else {
        vstd::arithmetic::power2::lemma_pow2_unfold(k);
        if x > 0 {
            lemma_popcount_below_pow2(x / 2, (k - 1) as nat);
        }
    }
}

/// The popcount of a byte is zero exactly for the zero byte.
pub proof fn lemma_popcount_zero(x: nat)
    ensures
        popcount(x) == 0 <==> x == 0,
    decreases x,
{
    if x > 0 {
        if x % 2 == 0 {
            lemma_popcount_zero(x / 2);
        }
    }
}

/// Byte distance is symmetric and zero exactly between equal bytes.
pub proof fn lemma_byte_distance_basics(a: u8, b: u8)
    ensures
        byte_distance(a, b) == byte_distance(b, a),
        byte_distance(a, b) == 0 <==> a == b,
{
    assert(a ^ b == b ^ a) by (bit_vector);
    assert((a ^ b == 0) <==> a == b) by (bit_vector);
    lemma_popcount_zero((a ^ b) as nat);
}

proof fn lemma_popcount_xor_le(x: u8, y: u8)
    ensures
        popcount((x ^ y) as nat) <= popcount(x as nat) + popcount(y as nat),
    decreases x as nat + y as nat,
{
    let z = x ^ y;
    if z != 0 {
        assert(z / 2 == (x / 2) ^ (y / 2)) by (bit_vector)
            requires
                z == x ^ y,
        ;
        assert(z % 2 <= x % 2 + y % 2) by (bit_vector)
            requires
                z == x ^ y,
        ;
        assert(x != 0 || y != 0) by (bit_vector)
            requires
                z == x ^ y,
                z != 0,
        ;
        lemma_popcount_xor_le(x / 2, y / 2);
        assert(popcount(z as nat) == (z as nat) % 2 + popcount((z / 2) as nat));
        if x > 0 {
            assert(popcount(x as nat) == (x as nat) % 2 + popcount((x / 2) as nat));
        }
        if y > 0 {
            assert(popcount(y as nat) == (y as nat) % 2 + popcount((y / 2) as nat));
        }
    }
}

/// The distance of bytes obeys the triangle inequality.
pub proof fn lemma_byte_distance_triangle(a: u8, b: u8, c: u8)
    ensures
        byte_distance(a, c) <= byte_distance(a, b) + byte_distance(b, c),
{
    assert(a ^ c == (a ^ b) ^ (b ^ c)) by (bit_vector);
    lemma_popcount_xor_le(a ^ b, b ^ c);
}

} // verus!
