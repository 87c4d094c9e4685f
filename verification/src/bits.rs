//! Bit masks over the 32 slots of a frame, and the 5-bit chunks of a hash.

use vstd::prelude::*;

verus! {

/// Values that share their first 32-bit word with the kind flag must stay
/// below this bound.
pub const TOP_BIT: u32 = 0x8000_0000;

/// Deepest level of the trie: seven chunks of five bits cover a 32-bit hash.
pub const MAX_DEPTH: usize = 6;

/// The mask with only bit `i` set.
pub open spec fn bit_of(i: u32) -> u32 {
    1u32 << i
}

/// Whether bit `i` of `mask` is set.
pub open spec fn has_bit(mask: u32, i: u32) -> bool {
    mask & (1u32 << i) != 0
}

/// How many of the bits `0..n` of `mask` are set.
pub open spec fn count_below(mask: u32, n: nat) -> nat
    decreases n,
{
    if n == 0 {
        0
    } else {
        count_below(mask, (n - 1) as nat) + if has_bit(mask, (n - 1) as u32) {
            1nat
        } else {
            0nat
        }
    }
}

/// Number of set bits of `mask`.
pub open spec fn popcount(mask: u32) -> nat {
    count_below(mask, 32)
}

/// The 5-bit chunk of `hash` that indexes a frame at `depth`, least
/// significant chunk first.
pub open spec fn chunk(hash: u32, depth: nat) -> u32 {
    (hash >> ((5 * depth) as u32)) & 31
}

pub proof fn lemma_count_below_bound(mask: u32, n: nat)
    ensures
        count_below(mask, n) <= n,
    decreases n,
{
    if n > 0 {
        lemma_count_below_bound(mask, (n - 1) as nat);
    }
}

pub proof fn lemma_count_below_monotone(mask: u32, i: nat, j: nat)
    requires
        i <= j,
    ensures
        count_below(mask, i) <= count_below(mask, j),
    decreases j,
{
    if i < j {
        lemma_count_below_monotone(mask, i, (j - 1) as nat);
    }
}

/// A set bit at `i` is counted by every prefix that reaches past it.
pub proof fn lemma_count_below_strict(mask: u32, i: nat, n: nat)
    requires
        i < n,
        has_bit(mask, i as u32),
    ensures
        count_below(mask, i) < count_below(mask, n),
{
    lemma_count_below_monotone(mask, i + 1, n);
}

/// The count below `n` depends only on the bits below `n`.
pub proof fn lemma_count_below_agree(a: u32, b: u32, n: nat)
    requires
        forall|j: u32| j < n ==> has_bit(a, j) == has_bit(b, j),
    ensures
        count_below(a, n) == count_below(b, n),
    decreases n,
{
    if n > 0 {
        lemma_count_below_agree(a, b, (n - 1) as nat);
    }
}

pub proof fn lemma_has_bit_zero(i: u32)
    requires
        i < 32,
    ensures
        !has_bit(0, i),
{
    assert(0u32 & (1u32 << i) == 0) by (bit_vector);
}

/// Setting bit `i` changes that bit and no other.
pub proof fn lemma_has_bit_or(mask: u32, i: u32, j: u32)
    requires
        i < 32,
        j < 32,
    ensures
        has_bit(mask | bit_of(i), j) == (i == j || has_bit(mask, j)),
{
    assert(((mask | (1u32 << i)) & (1u32 << j) != 0) == (i == j || mask & (1u32 << j) != 0))
        by (bit_vector)
        requires
            i < 32,
            j < 32,
    ;
}

pub proof fn lemma_count_zero(n: nat)
    requires
        n <= 32,
    ensures
        count_below(0, n) == 0,
    decreases n,
{
    if n > 0 {
        lemma_has_bit_zero((n - 1) as u32);
        lemma_count_zero((n - 1) as nat);
    }
}

pub proof fn lemma_chunk_bound(hash: u32, depth: nat)
    ensures
        chunk(hash, depth) < 32,
{
    let x = hash >> ((5 * depth) as u32);
    assert(x & 31 < 32) by (bit_vector);
}

/// Two hashes whose seven chunks coincide are the same hash.
pub proof fn lemma_chunks_determine_hash(a: u32, b: u32)
    requires
        forall|d: nat| d <= 6 ==> chunk(a, d) == chunk(b, d),
    ensures
        a == b,
{
    assert(chunk(a, 0) == chunk(b, 0));
    assert(chunk(a, 1) == chunk(b, 1));
    assert(chunk(a, 2) == chunk(b, 2));
    assert(chunk(a, 3) == chunk(b, 3));
    assert(chunk(a, 4) == chunk(b, 4));
    assert(chunk(a, 5) == chunk(b, 5));
    assert(chunk(a, 6) == chunk(b, 6));
    assert(a == b) by (bit_vector)
        requires
            (a >> 0u32) & 31 == (b >> 0u32) & 31,
            (a >> 5u32) & 31 == (b >> 5u32) & 31,
            (a >> 10u32) & 31 == (b >> 10u32) & 31,
            (a >> 15u32) & 31 == (b >> 15u32) & 31,
            (a >> 20u32) & 31 == (b >> 20u32) & 31,
            (a >> 25u32) & 31 == (b >> 25u32) & 31,
            (a >> 30u32) & 31 == (b >> 30u32) & 31,
    ;
}

/// Two masks with the same 32 bits are the same mask.
pub proof fn lemma_mask_ext(a: u32, b: u32)
    requires
        forall|j: u32| j < 32 ==> has_bit(a, j) == has_bit(b, j),
    ensures
        a == b,
{
    assert(has_bit(a, 0) == has_bit(b, 0));
    assert(has_bit(a, 1) == has_bit(b, 1));
    assert(has_bit(a, 2) == has_bit(b, 2));
    assert(has_bit(a, 3) == has_bit(b, 3));
    assert(has_bit(a, 4) == has_bit(b, 4));
    assert(has_bit(a, 5) == has_bit(b, 5));
    assert(has_bit(a, 6) == has_bit(b, 6));
    assert(has_bit(a, 7) == has_bit(b, 7));
    assert(has_bit(a, 8) == has_bit(b, 8));
    assert(has_bit(a, 9) == has_bit(b, 9));
    assert(has_bit(a, 10) == has_bit(b, 10));
    assert(has_bit(a, 11) == has_bit(b, 11));
    assert(has_bit(a, 12) == has_bit(b, 12));
    assert(has_bit(a, 13) == has_bit(b, 13));
    assert(has_bit(a, 14) == has_bit(b, 14));
    assert(has_bit(a, 15) == has_bit(b, 15));
    assert(has_bit(a, 16) == has_bit(b, 16));
    assert(has_bit(a, 17) == has_bit(b, 17));
    assert(has_bit(a, 18) == has_bit(b, 18));
    assert(has_bit(a, 19) == has_bit(b, 19));
    assert(has_bit(a, 20) == has_bit(b, 20));
    assert(has_bit(a, 21) == has_bit(b, 21));
    assert(has_bit(a, 22) == has_bit(b, 22));
    assert(has_bit(a, 23) == has_bit(b, 23));
    assert(has_bit(a, 24) == has_bit(b, 24));
    assert(has_bit(a, 25) == has_bit(b, 25));
    assert(has_bit(a, 26) == has_bit(b, 26));
    assert(has_bit(a, 27) == has_bit(b, 27));
    assert(has_bit(a, 28) == has_bit(b, 28));
    assert(has_bit(a, 29) == has_bit(b, 29));
    assert(has_bit(a, 30) == has_bit(b, 30));
    assert(has_bit(a, 31) == has_bit(b, 31));
    assert(a == b) by (bit_vector)
        requires
            (a & (1u32 << 0u32) != 0) == (b & (1u32 << 0u32) != 0),
            (a & (1u32 << 1u32) != 0) == (b & (1u32 << 1u32) != 0),
            (a & (1u32 << 2u32) != 0) == (b & (1u32 << 2u32) != 0),
            (a & (1u32 << 3u32) != 0) == (b & (1u32 << 3u32) != 0),
            (a & (1u32 << 4u32) != 0) == (b & (1u32 << 4u32) != 0),
            (a & (1u32 << 5u32) != 0) == (b & (1u32 << 5u32) != 0),
            (a & (1u32 << 6u32) != 0) == (b & (1u32 << 6u32) != 0),
            (a & (1u32 << 7u32) != 0) == (b & (1u32 << 7u32) != 0),
            (a & (1u32 << 8u32) != 0) == (b & (1u32 << 8u32) != 0),
            (a & (1u32 << 9u32) != 0) == (b & (1u32 << 9u32) != 0),
            (a & (1u32 << 10u32) != 0) == (b & (1u32 << 10u32) != 0),
            (a & (1u32 << 11u32) != 0) == (b & (1u32 << 11u32) != 0),
            (a & (1u32 << 12u32) != 0) == (b & (1u32 << 12u32) != 0),
            (a & (1u32 << 13u32) != 0) == (b & (1u32 << 13u32) != 0),
            (a & (1u32 << 14u32) != 0) == (b & (1u32 << 14u32) != 0),
            (a & (1u32 << 15u32) != 0) == (b & (1u32 << 15u32) != 0),
            (a & (1u32 << 16u32) != 0) == (b & (1u32 << 16u32) != 0),
            (a & (1u32 << 17u32) != 0) == (b & (1u32 << 17u32) != 0),
            (a & (1u32 << 18u32) != 0) == (b & (1u32 << 18u32) != 0),
            (a & (1u32 << 19u32) != 0) == (b & (1u32 << 19u32) != 0),
            (a & (1u32 << 20u32) != 0) == (b & (1u32 << 20u32) != 0),
            (a & (1u32 << 21u32) != 0) == (b & (1u32 << 21u32) != 0),
            (a & (1u32 << 22u32) != 0) == (b & (1u32 << 22u32) != 0),
            (a & (1u32 << 23u32) != 0) == (b & (1u32 << 23u32) != 0),
            (a & (1u32 << 24u32) != 0) == (b & (1u32 << 24u32) != 0),
            (a & (1u32 << 25u32) != 0) == (b & (1u32 << 25u32) != 0),
            (a & (1u32 << 26u32) != 0) == (b & (1u32 << 26u32) != 0),
            (a & (1u32 << 27u32) != 0) == (b & (1u32 << 27u32) != 0),
            (a & (1u32 << 28u32) != 0) == (b & (1u32 << 28u32) != 0),
            (a & (1u32 << 29u32) != 0) == (b & (1u32 << 29u32) != 0),
            (a & (1u32 << 30u32) != 0) == (b & (1u32 << 30u32) != 0),
            (a & (1u32 << 31u32) != 0) == (b & (1u32 << 31u32) != 0),
    ;
}

/// Joining a mask with nothing or with itself changes nothing.
pub proof fn lemma_or_basics(x: u32, y: u32)
    ensures
        0u32 | x == x,
        x | x == x,
        (0u32 | x) | y == x | y,
{
    assert(0u32 | x == x && x | x == x && (0u32 | x) | y == x | y) by (bit_vector);
}

/// The mask with only bit `i` set, for `i < 32`.
pub fn mask_of_index(i: usize) -> (m: u32)
    requires
        i < 32,
    ensures
        m == bit_of(i as u32),
{
    1u32 << (i as u32)
}

/// Whether bit `i` of `mask` is set.
pub fn test_bit(mask: u32, i: usize) -> (b: bool)
    requires
        i < 32,
    ensures
        b == has_bit(mask, i as u32),
{
    mask & (1u32 << (i as u32)) != 0
}

/// Number of set bits among the bits `0..n` of `mask`.
pub fn count_bits_below(mask: u32, n: usize) -> (c: usize)
    requires
        n <= 32,
    ensures
        c == count_below(mask, n as nat),
        c <= n,
{
    let mut c: usize = 0;
    let mut i: usize = 0;
    while i < n
        invariant
            i <= n <= 32,
            c == count_below(mask, i as nat),
            c <= i,
        decreases n - i,
    {
        if test_bit(mask, i) {
            c = c + 1;
        }
        i = i + 1;
    }
    c
}

/// The chunk of `hash` that indexes a frame at `depth`.
pub fn chunk_at(hash: u32, depth: usize) -> (c: usize)
    requires
        depth <= MAX_DEPTH,
    ensures
        c == chunk(hash, depth as nat),
        c < 32,
{
    proof {
        lemma_chunk_bound(hash, depth as nat);
    }
    let shift: u32 = (5 * depth) as u32;
    ((hash >> shift) & 31) as usize
}

} // verus!
