use vstd::prelude::*;

verus! {

use vstd::arithmetic::power2::{
    pow2,
    lemma_pow2_pos,
    lemma_pow2_adds,
    lemma_pow2_unfold,
    lemma_pow2_strictly_increases,
    lemma2_to64,
};
use vstd::arithmetic::div_mod::{
    lemma_fundamental_div_mod,
    lemma_mod_multiples_basic,
    lemma_mod_add_multiples_vanish,
};

/// Size in bytes of a block of the given order: the smallest block is 64 bytes and
/// each order doubles it.
pub open spec fn block_bytes(order: nat) -> nat {
    64 * pow2(order)
}

/// Basic facts about block sizes.
pub proof fn lemma_block_bytes(order: nat)
    ensures
        block_bytes(order) >= 64,
        block_bytes(order) % 64 == 0,
        block_bytes(order + 1) == 2 * block_bytes(order),
        block_bytes(order) == pow2(order + 6),
{
    lemma_pow2_pos(order);
    lemma_pow2_unfold(order + 1);
    lemma_mod_multiples_basic(pow2(order) as int, 64);
    lemma_pow2_adds(order, 6);
    lemma2_to64();
    assert(pow2(order) * 64 == 64 * pow2(order)) by (nonlinear_arith);
}

/// Block sizes grow with the order, and a larger one is a multiple of a smaller one.
pub proof fn lemma_block_bytes_grow(o1: nat, o2: nat)
    requires
        o1 <= o2,
    ensures
        block_bytes(o1) <= block_bytes(o2),
        block_bytes(o2) == block_bytes(o1) * pow2((o2 - o1) as nat),
{
    let d = (o2 - o1) as nat;
    lemma_pow2_adds(o1, d);
    lemma_pow2_pos(d);
    lemma_pow2_pos(o1);
    assert(o1 + d == o2);
    assert(64 * (pow2(o1) * pow2(d)) == (64 * pow2(o1)) * pow2(d)) by (nonlinear_arith);
    assert(64 * pow2(o1) <= (64 * pow2(o1)) * pow2(d)) by (nonlinear_arith)
        requires
            pow2(d) >= 1,
    ;
}

/// A multiple of `a * k` is a multiple of `a`.
pub proof fn lemma_mod_of_multiple(x: int, a: int, k: int)
    requires
        a > 0,
        k > 0,
        x % (a * k) == 0,
    ensures
        x % a == 0,
{
    assert(a * k > 0) by (nonlinear_arith)
        requires
            a > 0,
            k > 0,
    ;
    lemma_fundamental_div_mod(x, a * k);
    let q = x / (a * k);
    assert(x == (q * k) * a) by (nonlinear_arith)
        requires
            x == (a * k) * q + 0,
    ;
    lemma_mod_multiples_basic(q * k, a);
}

/// An offset aligned to a block of order `o2` is aligned to every smaller order.
pub proof fn lemma_aligned_smaller(off: int, o1: nat, o2: nat)
    requires
        o1 <= o2,
        off % (block_bytes(o2) as int) == 0,
    ensures
        off % (block_bytes(o1) as int) == 0,
{
    lemma_block_bytes_grow(o1, o2);
    lemma_block_bytes(o1);
    lemma_pow2_pos((o2 - o1) as nat);
    lemma_mod_of_multiple(off, block_bytes(o1) as int, pow2((o2 - o1) as nat) as int);
}

/// Splitting an aligned block of order `o + 1` gives two halves aligned to order `o`.
pub proof fn lemma_split_aligned(off: int, o: nat)
    requires
        off % (block_bytes(o + 1) as int) == 0,
    ensures
        off % (block_bytes(o) as int) == 0,
        (off + block_bytes(o)) % (block_bytes(o) as int) == 0,
{
    lemma_aligned_smaller(off, o, o + 1);
    lemma_block_bytes(o);
    lemma_mod_add_multiples_vanish(off, block_bytes(o) as int);
}

/// For an offset aligned to `s`, whichever of the offset and its neighbour `s` away
/// lies lower is aligned to `2 * s`.
pub proof fn lemma_merge_aligned(off: int, s: int)
    requires
        s > 0,
        off >= 0,
        off % s == 0,
    ensures
        (off / s) % 2 == 0 ==> off % (2 * s) == 0,
        (off / s) % 2 != 0 ==> off >= s && (off - s) % (2 * s) == 0,
{
    lemma_fundamental_div_mod(off, s);
    let q = off / s;
    assert(q >= 0) by (nonlinear_arith)
        requires
            off >= 0,
            s > 0,
            q == off / s,
    ;
    lemma_fundamental_div_mod(q, 2);
    let r = q / 2;
    if q % 2 == 0 {
        assert(off == r * (2 * s)) by (nonlinear_arith)
            requires
                off == s * q + 0,
                q == 2 * r + 0,
        ;
        lemma_mod_multiples_basic(r, 2 * s);
    } else {
        assert(q % 2 == 1);
        assert(off - s == r * (2 * s) && off >= s) by (nonlinear_arith)
            requires
                off == s * q + 0,
                q == 2 * r + 1,
                r >= 0,
                s > 0,
        ;
        lemma_mod_multiples_basic(r, 2 * s);
    }
}

/// Flipping the bit of a power of two `m` in a word whose lower bits are clear
/// moves the word by `m`, up when the bit was clear and down when it was set.
proof fn lemma_xor_pow2_bits(x: usize, m: usize)
    requires
        m != 0,
        m & ((m - 1) as usize) == 0,
        x & ((m - 1) as usize) == 0,
    ensures
        x & m == 0 ==> (x ^ m) == x + m,
        x & m != 0 ==> (x ^ m) == x - m,
{
    assert(x & m == 0 ==> (x ^ m) == x + m) by (bit_vector)
        requires
            m != 0,
            m & ((m - 1) as usize) == 0,
            x & ((m - 1) as usize) == 0,
    ;
    assert(x & m != 0 ==> (x ^ m) == x - m) by (bit_vector)
        requires
            m != 0,
            m & ((m - 1) as usize) == 0,
            x & ((m - 1) as usize) == 0,
    ;
}

/// The buddy of an aligned offset: flipping the size bit moves the offset by one
/// block, up or down according to the parity of its block index.
pub proof fn lemma_buddy_offset(off: usize, order: nat, size: usize)
    requires
        size == block_bytes(order),
        off % size == 0,
    ensures
        (off as int / size as int) % 2 == 0 ==> (off ^ size) == off + size,
        (off as int / size as int) % 2 != 0 ==> (off ^ size) == off - size,
{
    let k = order + 6;
    lemma_block_bytes(order);
    vstd::layout::unsigned_int_max_values();
    if k >= usize::BITS {
        if k > usize::BITS {
            lemma_pow2_strictly_increases(usize::BITS as nat, k);
        }
        assert(false);
    }
    let ku = k as usize;
    vstd::bits::lemma_usize_shl_is_mul(1, ku);
    assert(size == (1usize << ku));
    vstd::bits::lemma_usize_low_bits_mask_is_mod(off, k);
    vstd::bits::lemma_usize_low_bits_mask_is_mod(size, k);
    assert(vstd::bits::low_bits_mask(k) == pow2(k) - 1);
    assert((vstd::bits::low_bits_mask(k) as usize) == ((size - 1) as usize));
    lemma_mod_multiples_basic(1, size as int);
    assert(size & ((size - 1) as usize) == 0);
    assert(off & ((size - 1) as usize) == 0);
    lemma_xor_pow2_bits(off, size);
    vstd::bits::lemma_usize_shr_is_div(off, ku);
    assert((off & (1usize << ku)) == 0 <==> ((off >> ku) & 1) == 0) by (bit_vector);
    let q = off >> ku;
    assert(((q & 1) == 0) <==> (q % 2 == 0)) by (bit_vector);
}

/// Moving an aligned offset to its neighbour one block away flips the parity of its
/// block index: the neighbour's neighbour is the offset itself.
pub proof fn lemma_buddy_parity(off: int, s: int)
    requires
        s > 0,
        off >= 0,
        off % s == 0,
    ensures
        (off / s) % 2 == 0 ==> (off + s) % s == 0 && ((off + s) / s) % 2 != 0,
        (off / s) % 2 != 0 ==> off >= s && (off - s) % s == 0 && ((off - s) / s) % 2 == 0,
{
    lemma_fundamental_div_mod(off, s);
    let q = off / s;
    assert(q >= 0) by (nonlinear_arith)
        requires
            off >= 0,
            s > 0,
            q == off / s,
    ;
    assert(off == q * s) by (nonlinear_arith)
        requires
            off == s * q + 0,
    ;
    assert(off + s == (q + 1) * s) by (nonlinear_arith)
        requires
            off == q * s,
    ;
    assert(off - s == (q - 1) * s) by (nonlinear_arith)
        requires
            off == q * s,
    ;
    vstd::arithmetic::div_mod::lemma_div_multiples_vanish(q + 1, s);
    vstd::arithmetic::div_mod::lemma_div_multiples_vanish(q - 1, s);
    lemma_mod_multiples_basic(q + 1, s);
    lemma_mod_multiples_basic(q - 1, s);
    assert((q + 1) * s == s * (q + 1) && (q - 1) * s == s * (q - 1)) by (nonlinear_arith);
    if q % 2 != 0 {
        assert(q >= 1);
        assert(off >= s) by (nonlinear_arith)
            requires
                off == q * s,
                q >= 1,
                s > 0,
        ;
    }
}

/// An offset aligned to `2 * s` has an even block index at size `s`.
pub proof fn lemma_double_aligned_even(off: int, s: int)
    requires
        s > 0,
        off >= 0,
        off % (2 * s) == 0,
    ensures
        off % s == 0,
        (off / s) % 2 == 0,
{
    lemma_fundamental_div_mod(off, 2 * s);
    let r = off / (2 * s);
    assert(off == (2 * r) * s) by (nonlinear_arith)
        requires
            off == (2 * s) * r + 0,
    ;
    vstd::arithmetic::div_mod::lemma_div_multiples_vanish(2 * r, s);
    lemma_mod_multiples_basic(2 * r, s);
    assert((2 * r) * s == s * (2 * r)) by (nonlinear_arith);
}

/// An offset aligned to `s` with an even block index at size `s` is aligned to
/// `2 * s`.
pub proof fn lemma_even_index_double_aligned(off: int, s: int)
    requires
        s > 0,
        off >= 0,
        off % s == 0,
        (off / s) % 2 == 0,
    ensures
        off % (2 * s) == 0,
{
    lemma_fundamental_div_mod(off, s);
    let q = off / s;
    lemma_fundamental_div_mod(q, 2);
    let r = q / 2;
    assert(off == r * (2 * s)) by (nonlinear_arith)
        requires
            off == s * q + 0,
            q == 2 * r + 0,
    ;
    lemma_mod_multiples_basic(r, 2 * s);
}

} // verus!
