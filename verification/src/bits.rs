//! Word-level bit manipulation, alignment and hashing.
use vstd::prelude::*;

verus! {

/// Takes the bits of `b` where `mask` is set and the bits of `a` elsewhere.
pub open spec fn merge_spec(a: u64, b: u64, mask: u64) -> u64 {
    (a & !mask) | (b & mask)
}

pub fn bitwise_merge(a: u64, b: u64, mask: u64) -> (r: u64)
    ensures
        r == merge_spec(a, b, mask),
        forall|i: u64|
            #![trigger (r >> i) & 1]
            i < 64 ==> (r >> i) & 1 == if (mask >> i) & 1 == 1 { (b >> i) & 1 } else { (a >> i) & 1 },
{
    let r = (a & !mask) | (b & mask);
    assert(forall|i: u64|
        #![trigger (r >> i) & 1]
        i < 64 ==> (r >> i) & 1 == if (mask >> i) & 1 == 1 { (b >> i) & 1 } else { (a >> i) & 1 })
        by (bit_vector)
        requires r == (a & !mask) | (b & mask);
    r
}


/// The number of set bits of `v`, bit by bit.
pub open spec fn count_ones_spec(v: u64) -> u64 {
    (((v >> 0u64) & 1u64) + ((v >> 1u64) & 1u64) + ((v >> 2u64) & 1u64) + ((v >> 3u64) & 1u64) + ((v >> 4u64) & 1u64) + ((v >> 5u64) & 1u64) + ((v >> 6u64) & 1u64) + ((v >> 7u64) & 1u64) + ((v >> 8u64) & 1u64) + ((v >> 9u64) & 1u64) + ((v >> 10u64) & 1u64) + ((v >> 11u64) & 1u64) + ((v >> 12u64) & 1u64) + ((v >> 13u64) & 1u64) + ((v >> 14u64) & 1u64) + ((v >> 15u64) & 1u64) + ((v >> 16u64) & 1u64) + ((v >> 17u64) & 1u64) + ((v >> 18u64) & 1u64) + ((v >> 19u64) & 1u64) + ((v >> 20u64) & 1u64) + ((v >> 21u64) & 1u64) + ((v >> 22u64) & 1u64) + ((v >> 23u64) & 1u64) + ((v >> 24u64) & 1u64) + ((v >> 25u64) & 1u64) + ((v >> 26u64) & 1u64) + ((v >> 27u64) & 1u64) + ((v >> 28u64) & 1u64) + ((v >> 29u64) & 1u64) + ((v >> 30u64) & 1u64) + ((v >> 31u64) & 1u64) + ((v >> 32u64) & 1u64) + ((v >> 33u64) & 1u64) + ((v >> 34u64) & 1u64) + ((v >> 35u64) & 1u64) + ((v >> 36u64) & 1u64) + ((v >> 37u64) & 1u64) + ((v >> 38u64) & 1u64) + ((v >> 39u64) & 1u64) + ((v >> 40u64) & 1u64) + ((v >> 41u64) & 1u64) + ((v >> 42u64) & 1u64) + ((v >> 43u64) & 1u64) + ((v >> 44u64) & 1u64) + ((v >> 45u64) & 1u64) + ((v >> 46u64) & 1u64) + ((v >> 47u64) & 1u64) + ((v >> 48u64) & 1u64) + ((v >> 49u64) & 1u64) + ((v >> 50u64) & 1u64) + ((v >> 51u64) & 1u64) + ((v >> 52u64) & 1u64) + ((v >> 53u64) & 1u64) + ((v >> 54u64) & 1u64) + ((v >> 55u64) & 1u64) + ((v >> 56u64) & 1u64) + ((v >> 57u64) & 1u64) + ((v >> 58u64) & 1u64) + ((v >> 59u64) & 1u64) + ((v >> 60u64) & 1u64) + ((v >> 61u64) & 1u64) + ((v >> 62u64) & 1u64) + ((v >> 63u64) & 1u64)) as u64
}

/// Each two-bit field of the first step holds the count of its two bits,
/// and the step does not underflow.
proof fn lemma_popcount_pairs(v: u64, s1: u64)
    by (bit_vector)
    requires
        s1 == (v - ((v >> 1u64) & 0x5555555555555555u64)) as u64,
    ensures
        (v >> 1u64) & 0x5555555555555555u64 <= v,
        (s1 >> 0u64) & 3u64 == ((v >> 0u64) & 1u64) + ((v >> 1u64) & 1u64),
        (s1 >> 2u64) & 3u64 == ((v >> 2u64) & 1u64) + ((v >> 3u64) & 1u64),
        (s1 >> 4u64) & 3u64 == ((v >> 4u64) & 1u64) + ((v >> 5u64) & 1u64),
        (s1 >> 6u64) & 3u64 == ((v >> 6u64) & 1u64) + ((v >> 7u64) & 1u64),
        (s1 >> 8u64) & 3u64 == ((v >> 8u64) & 1u64) + ((v >> 9u64) & 1u64),
        (s1 >> 10u64) & 3u64 == ((v >> 10u64) & 1u64) + ((v >> 11u64) & 1u64),
        (s1 >> 12u64) & 3u64 == ((v >> 12u64) & 1u64) + ((v >> 13u64) & 1u64),
        (s1 >> 14u64) & 3u64 == ((v >> 14u64) & 1u64) + ((v >> 15u64) & 1u64),
        (s1 >> 16u64) & 3u64 == ((v >> 16u64) & 1u64) + ((v >> 17u64) & 1u64),
        (s1 >> 18u64) & 3u64 == ((v >> 18u64) & 1u64) + ((v >> 19u64) & 1u64),
        (s1 >> 20u64) & 3u64 == ((v >> 20u64) & 1u64) + ((v >> 21u64) & 1u64),
        (s1 >> 22u64) & 3u64 == ((v >> 22u64) & 1u64) + ((v >> 23u64) & 1u64),
        (s1 >> 24u64) & 3u64 == ((v >> 24u64) & 1u64) + ((v >> 25u64) & 1u64),
        (s1 >> 26u64) & 3u64 == ((v >> 26u64) & 1u64) + ((v >> 27u64) & 1u64),
        (s1 >> 28u64) & 3u64 == ((v >> 28u64) & 1u64) + ((v >> 29u64) & 1u64),
        (s1 >> 30u64) & 3u64 == ((v >> 30u64) & 1u64) + ((v >> 31u64) & 1u64),
        (s1 >> 32u64) & 3u64 == ((v >> 32u64) & 1u64) + ((v >> 33u64) & 1u64),
        (s1 >> 34u64) & 3u64 == ((v >> 34u64) & 1u64) + ((v >> 35u64) & 1u64),
        (s1 >> 36u64) & 3u64 == ((v >> 36u64) & 1u64) + ((v >> 37u64) & 1u64),
        (s1 >> 38u64) & 3u64 == ((v >> 38u64) & 1u64) + ((v >> 39u64) & 1u64),
        (s1 >> 40u64) & 3u64 == ((v >> 40u64) & 1u64) + ((v >> 41u64) & 1u64),
        (s1 >> 42u64) & 3u64 == ((v >> 42u64) & 1u64) + ((v >> 43u64) & 1u64),
        (s1 >> 44u64) & 3u64 == ((v >> 44u64) & 1u64) + ((v >> 45u64) & 1u64),
        (s1 >> 46u64) & 3u64 == ((v >> 46u64) & 1u64) + ((v >> 47u64) & 1u64),
        (s1 >> 48u64) & 3u64 == ((v >> 48u64) & 1u64) + ((v >> 49u64) & 1u64),
        (s1 >> 50u64) & 3u64 == ((v >> 50u64) & 1u64) + ((v >> 51u64) & 1u64),
        (s1 >> 52u64) & 3u64 == ((v >> 52u64) & 1u64) + ((v >> 53u64) & 1u64),
        (s1 >> 54u64) & 3u64 == ((v >> 54u64) & 1u64) + ((v >> 55u64) & 1u64),
        (s1 >> 56u64) & 3u64 == ((v >> 56u64) & 1u64) + ((v >> 57u64) & 1u64),
        (s1 >> 58u64) & 3u64 == ((v >> 58u64) & 1u64) + ((v >> 59u64) & 1u64),
        (s1 >> 60u64) & 3u64 == ((v >> 60u64) & 1u64) + ((v >> 61u64) & 1u64),
        (s1 >> 62u64) & 3u64 == ((v >> 62u64) & 1u64) + ((v >> 63u64) & 1u64),
{
}

/// Each nibble of the second step holds the count of its two fields; the
/// sum fits, and every nibble is at most 4.
proof fn lemma_popcount_nibbles(s1: u64, s2: u64)
    by (bit_vector)
    requires
        s2 == ((s1 & 0x3333333333333333u64) + ((s1 >> 2u64) & 0x3333333333333333u64)) as u64,
    ensures
        (s1 & 0x3333333333333333u64) + ((s1 >> 2u64) & 0x3333333333333333u64) <= 0x6666666666666666u64,
        s2 & 0x8888888888888888u64 == 0,
        s2 + (s2 >> 4u64) <= u64::MAX,
        (s2 >> 0u64) & 15u64 == ((s1 >> 0u64) & 3u64) + ((s1 >> 2u64) & 3u64),
        (s2 >> 4u64) & 15u64 == ((s1 >> 4u64) & 3u64) + ((s1 >> 6u64) & 3u64),
        (s2 >> 8u64) & 15u64 == ((s1 >> 8u64) & 3u64) + ((s1 >> 10u64) & 3u64),
        (s2 >> 12u64) & 15u64 == ((s1 >> 12u64) & 3u64) + ((s1 >> 14u64) & 3u64),
        (s2 >> 16u64) & 15u64 == ((s1 >> 16u64) & 3u64) + ((s1 >> 18u64) & 3u64),
        (s2 >> 20u64) & 15u64 == ((s1 >> 20u64) & 3u64) + ((s1 >> 22u64) & 3u64),
        (s2 >> 24u64) & 15u64 == ((s1 >> 24u64) & 3u64) + ((s1 >> 26u64) & 3u64),
        (s2 >> 28u64) & 15u64 == ((s1 >> 28u64) & 3u64) + ((s1 >> 30u64) & 3u64),
        (s2 >> 32u64) & 15u64 == ((s1 >> 32u64) & 3u64) + ((s1 >> 34u64) & 3u64),
        (s2 >> 36u64) & 15u64 == ((s1 >> 36u64) & 3u64) + ((s1 >> 38u64) & 3u64),
        (s2 >> 40u64) & 15u64 == ((s1 >> 40u64) & 3u64) + ((s1 >> 42u64) & 3u64),
        (s2 >> 44u64) & 15u64 == ((s1 >> 44u64) & 3u64) + ((s1 >> 46u64) & 3u64),
        (s2 >> 48u64) & 15u64 == ((s1 >> 48u64) & 3u64) + ((s1 >> 50u64) & 3u64),
        (s2 >> 52u64) & 15u64 == ((s1 >> 52u64) & 3u64) + ((s1 >> 54u64) & 3u64),
        (s2 >> 56u64) & 15u64 == ((s1 >> 56u64) & 3u64) + ((s1 >> 58u64) & 3u64),
        (s2 >> 60u64) & 15u64 == ((s1 >> 60u64) & 3u64) + ((s1 >> 62u64) & 3u64),
{
}

/// Each byte of the third step holds the count of its two nibbles, and no
/// byte reaches 16.
proof fn lemma_popcount_bytes(s2: u64, s3: u64)
    by (bit_vector)
    requires
        s2 & 0x8888888888888888u64 == 0,
        s3 == ((s2 + (s2 >> 4u64)) as u64) & 0x0F0F0F0F0F0F0F0Fu64,
    ensures
        s3 & 0xF0F0F0F0F0F0F0F0u64 == 0,
        (s3 >> 0u64) & 255u64 == ((s2 >> 0u64) & 15u64) + ((s2 >> 4u64) & 15u64),
        (s3 >> 8u64) & 255u64 == ((s2 >> 8u64) & 15u64) + ((s2 >> 12u64) & 15u64),
        (s3 >> 16u64) & 255u64 == ((s2 >> 16u64) & 15u64) + ((s2 >> 20u64) & 15u64),
        (s3 >> 24u64) & 255u64 == ((s2 >> 24u64) & 15u64) + ((s2 >> 28u64) & 15u64),
        (s3 >> 32u64) & 255u64 == ((s2 >> 32u64) & 15u64) + ((s2 >> 36u64) & 15u64),
        (s3 >> 40u64) & 255u64 == ((s2 >> 40u64) & 15u64) + ((s2 >> 44u64) & 15u64),
        (s3 >> 48u64) & 255u64 == ((s2 >> 48u64) & 15u64) + ((s2 >> 52u64) & 15u64),
        (s3 >> 56u64) & 255u64 == ((s2 >> 56u64) & 15u64) + ((s2 >> 60u64) & 15u64),
{
}

/// Multiplying by the byte-repeating constant sums the bytes into the top byte.
proof fn lemma_popcount_sum(s3: u64, m: u64, r: u64)
    by (bit_vector)
    requires
        s3 & 0xF0F0F0F0F0F0F0F0u64 == 0,
        m == ((s3 * 0x0101010101010101u64) % 0x1_0000_0000_0000_0000) as u64,
        r == m >> 56u64,
    ensures
        r < 256,
        r == ((s3 >> 0u64) & 255u64) + ((s3 >> 8u64) & 255u64) + ((s3 >> 16u64) & 255u64) + ((s3 >> 24u64) & 255u64) + ((s3 >> 32u64) & 255u64) + ((s3 >> 40u64) & 255u64) + ((s3 >> 48u64) & 255u64) + ((s3 >> 56u64) & 255u64),
{
}

pub fn popcount64(v: u64) -> (r: u32)
    ensures
        r as u64 == count_ones_spec(v),
{
    proof {
        lemma_popcount_pairs(v, (v - ((v >> 1u64) & 0x5555555555555555u64)) as u64);
    }
    let s1 = v - ((v >> 1) & 0x5555555555555555);
    proof {
        lemma_popcount_nibbles(s1, ((s1 & 0x3333333333333333u64) + ((s1 >> 2u64) & 0x3333333333333333u64)) as u64);
    }
    let s2 = (s1 & 0x3333333333333333) + ((s1 >> 2) & 0x3333333333333333);
    let s3 = (s2 + (s2 >> 4)) & 0x0F0F0F0F0F0F0F0F;
    let m = s3.wrapping_mul(0x0101010101010101);
    let r = m >> 56;
    proof {
        lemma_popcount_bytes(s2, s3);
        lemma_popcount_sum(s3, m, r);
        assert(r as int == count_ones_spec(v) as int);
    }
    r as u32
}

/// `n` is the number of leading zero bits of `v`: the highest set bit of
/// `v` is bit `63 - n`, and `n` is 64 exactly when `v` is zero.
pub open spec fn is_leading_zeros(v: u64, n: u64) -> bool {
    &&& n <= 64
    &&& (n == 64 <==> v == 0)
    &&& (n < 64 ==> v >> ((63 - n) as u64) == 1)
}

/// One halving step of the leading-zero count: either the top `k` bits of
/// `x` hold a set bit, or `x` is shifted up by `k` and `n` grows by `k`.
#[verifier::rlimit(60)]
proof fn lemma_clz_step(v: u64, n: u64, x: u64, k: u64, n2: u64, x2: u64)
    by (bit_vector)
    requires
        1 <= k <= 32,
        n + k <= 63,
        x == v << n,
        n == 0 || v >> ((64 - n) as u64) == 0,
        x >> ((64 - 2 * k) as u64) != 0,
        (x >> ((64 - k) as u64) == 0) ==> (n2 == n + k && x2 == x << k),
        (x >> ((64 - k) as u64) != 0) ==> (n2 == n && x2 == x),
    ensures
        x2 == v << n2,
        n2 == 0 || v >> ((64 - n2) as u64) == 0,
        x2 >> ((64 - k) as u64) != 0,
{
}

/// The last halving step: when the top two bits of `v << n` hold a set
/// bit, one more shift by the top bit settles the count.
proof fn lemma_clz_last(v: u64, n: u64, x: u64, n2: u64)
    by (bit_vector)
    requires
        n <= 62,
        x == v << n,
        n == 0 || v >> ((64 - n) as u64) == 0,
        x >> 62u64 != 0,
        (x >> 63u64 == 0) ==> n2 == n + 1,
        (x >> 63u64 != 0) ==> n2 == n,
    ensures
        n2 <= 63,
        v >> ((63 - n2) as u64) == 1,
{
}

pub fn clz64(v: u64) -> (r: u32)
    ensures
        is_leading_zeros(v, r as u64),
{
    if v == 0 {
        return 64;
    }
    let mut n = 0u32;
    let mut x = v;
    let ghost n0 = n;
    let ghost x0 = x;
    assert(x0 == v << 0u64 && x0 >> 0u64 != 0) by (bit_vector) requires x0 == v, v != 0;
    if x >> 32 == 0 { n += 32; x <<= 32; }
    proof { lemma_clz_step(v, n0 as u64, x0, 32, n as u64, x); }
    let ghost n1 = n;
    let ghost x1 = x;
    if x >> 48 == 0 { n += 16; x <<= 16; }
    proof { lemma_clz_step(v, n1 as u64, x1, 16, n as u64, x); }
    let ghost n2 = n;
    let ghost x2 = x;
    if x >> 56 == 0 { n += 8; x <<= 8; }
    proof { lemma_clz_step(v, n2 as u64, x2, 8, n as u64, x); }
    let ghost n3 = n;
    let ghost x3 = x;
    if x >> 60 == 0 { n += 4; x <<= 4; }
    proof { lemma_clz_step(v, n3 as u64, x3, 4, n as u64, x); }
    let ghost n4 = n;
    let ghost x4 = x;
    if x >> 62 == 0 { n += 2; x <<= 2; }
    proof { lemma_clz_step(v, n4 as u64, x4, 2, n as u64, x); }
    let ghost n5 = n;
    let ghost x5 = x;
    if x >> 63 == 0 { n += 1; }
    proof { lemma_clz_last(v, n5 as u64, x5, n as u64); }
    n
}

/// `t` is the index of the lowest set bit of `v`.
pub open spec fn is_trailing_zeros(v: u64, t: u64) -> bool {
    &&& t < 64
    &&& (v >> t) & 1 == 1
    &&& (t == 0 || v << ((64 - t) as u64) == 0)
}

/// The lowest set bit of `v`, isolated with `v & -v`, is bit `k` exactly
/// when `k` is the index of the lowest set bit of `v`.
proof fn lemma_lowest_bit(v: u64, neg: u64, low: u64, k: u64)
    by (bit_vector)
    requires
        v != 0,
        neg == 0x1_0000_0000_0000_0000 - v,
        low == v & neg,
        k < 64,
        low >> k == 1,
    ensures
        (v >> k) & 1 == 1,
        k == 0 || v << ((64 - k) as u64) == 0,
{
}

pub fn ffs64(v: u64) -> (r: Option<u32>)
    ensures
        v == 0 ==> r.is_none(),
        v != 0 ==> r.is_some() && is_trailing_zeros(v, r.unwrap() as u64),
{
    if v == 0 {
        return None;
    }
    let neg = 0u64.wrapping_sub(v);
    let low = v & neg;
    assert(low != 0) by (bit_vector) requires v != 0, neg == 0x1_0000_0000_0000_0000 - v, low == v & neg;
    let n = clz64(low);
    proof {
        lemma_lowest_bit(v, neg, low, (63 - n) as u64);
    }
    Some(63 - n)
}

/// `v` has exactly one bit set.
pub open spec fn single_bit(v: u64) -> bool {
    exists|k: u64| k < 64 && v == 1u64 << k
}

proof fn lemma_single_bit_test(v: u64)
    ensures
        single_bit(v) == (v != 0 && v & ((v - 1) as u64) == 0),
{
    if v != 0 && v & ((v - 1) as u64) == 0 {
        let n = choose|n: u64| is_leading_zeros(v, n);
        assert(exists|n: u64| is_leading_zeros(v, n)) by {
            lemma_leading_zeros_exist(v);
        }
        let k = (63 - n) as u64;
        lemma_one_bit(v, k);
    }
    if single_bit(v) {
        let k = choose|k: u64| k < 64 && v == 1u64 << k;
        lemma_one_bit(v, k);
    }
}

/// A word is `1 << k` exactly when it is non-zero, shares no bit with its
/// predecessor, and its highest set bit is `k`.
proof fn lemma_one_bit(v: u64, k: u64)
    by (bit_vector)
    requires
        k < 64,
    ensures
        (v != 0 && v & ((v - 1) as u64) == 0 && v >> k == 1) ==> v == 1u64 << k,
        v == 1u64 << k ==> (v != 0 && v & ((v - 1) as u64) == 0),
{
}

/// The power-of-two test on a machine word is the same test on its 64-bit value.
proof fn lemma_word_test(v: usize)
    by (bit_vector)
    ensures
        (v != 0 && v & ((v - 1) as usize) == 0) == ((v as u64) != 0 && (v as u64) & (((v as u64) - 1) as u64) == 0),
{
}

/// Bits clear below a word's mask stay clear in its 64-bit value.
proof fn lemma_word_mask(r: usize, align: usize)
    by (bit_vector)
    requires
        align != 0,
        align & ((align - 1) as usize) == 0,
        r & ((align - 1) as usize) == 0,
    ensures
        (r as u64) & (((align as u64) - 1) as u64) == 0,
        (align as u64) & (((align as u64) - 1) as u64) == 0,
{
}

proof fn lemma_leading_zeros_exist(v: u64)
    ensures
        exists|n: u64| is_leading_zeros(v, n),
{
    if v == 0 {
        assert(is_leading_zeros(v, 64));
    } else {
        let ghost n = vstd::std_specs::bits::u64_leading_zeros(v);
        vstd::std_specs::bits::axiom_u64_leading_zeros(v);
        let k = n as u64;
        assert(v >> ((63 - k) as u64) == 1) by (bit_vector)
            requires
                k < 64,
                (v >> ((63 - k) as u64)) & 1 != 0,
                v >> ((64 - k) as u64) == 0;
        assert(is_leading_zeros(v, k));
    }
}

pub fn is_power_of_two(v: usize) -> (r: bool)
    ensures
        r == single_bit(v as u64),
{
    proof {
        lemma_single_bit_test(v as u64);
    }
    proof {
        lemma_word_test(v);
    }
    v != 0 && (v & (v - 1)) == 0
}

/// `align` is a power of two, tested on the machine word.
pub open spec fn word_pow2(align: usize) -> bool {
    single_bit(align as u64)
}

pub proof fn lemma_word_pow2(align: usize)
    ensures
        word_pow2(align) == (align != 0 && align & ((align - 1) as usize) == 0),
{
    lemma_single_bit_test(align as u64);
    lemma_word_test(align);
}

/// For a power of two `align`, clearing the bits below `align` leaves a
/// multiple of `align`.
proof fn lemma_mask_is_multiple(x: u64, align: u64)
    requires
        single_bit(align),
        x & ((align - 1) as u64) == 0,
    ensures
        x % align == 0,
{
    let k = choose|k: u64| k < 64 && align == 1u64 << k;
    vstd::bits::lemma_u64_pow2_no_overflow(k as nat);
    vstd::bits::lemma_u64_shl_is_mul(1u64, k);
    vstd::bits::lemma_u64_low_bits_mask_is_mod(x, k as nat);
    assert(align == vstd::arithmetic::power2::pow2(k as nat));
    assert(vstd::bits::low_bits_mask(k as nat) == align - 1);
}

pub proof fn lemma_align_up_bits(addr: usize, align: usize, r: usize)
    requires
        align != 0,
        align & ((align - 1) as usize) == 0,
        ((addr + align - 1) as usize) == addr + align - 1,
        r == ((addr + align - 1) as usize) & !((align - 1) as usize),
    ensures
        r % align == 0,
        addr <= r,
        r < addr + align,
{
    assert(r & ((align - 1) as usize) == 0 && addr <= r && r <= addr + align - 1) by (bit_vector)
        requires
            align != 0,
            align & ((align - 1) as usize) == 0,
            ((addr + align - 1) as usize) == addr + align - 1,
            r == ((addr + align - 1) as usize) & !((align - 1) as usize);
    lemma_word_mask(r, align);
    lemma_single_bit_test(align as u64);
    lemma_mask_is_multiple(r as u64, align as u64);
}

pub proof fn lemma_align_down_bits(addr: usize, align: usize, r: usize)
    requires
        align != 0,
        align & ((align - 1) as usize) == 0,
        r == addr & !((align - 1) as usize),
    ensures
        r % align == 0,
        r <= addr,
        addr < r + align,
{
    assert(r & ((align - 1) as usize) == 0 && r <= addr && addr - r <= align - 1) by (bit_vector)
        requires
            align != 0,
            align & ((align - 1) as usize) == 0,
            r == addr & !((align - 1) as usize);
    lemma_word_mask(r, align);
    lemma_single_bit_test(align as u64);
    lemma_mask_is_multiple(r as u64, align as u64);
}

/// Rounds `addr` up to a multiple of `align` when `align` is a power of two;
/// any other `align` leaves `addr` as it is.
pub fn align_up(addr: usize, align: usize) -> (r: usize)
    requires
        word_pow2(align) ==> addr + align <= usize::MAX,
    ensures
        !word_pow2(align) ==> r == addr,
        word_pow2(align) ==> r % align == 0 && addr <= r && r < addr + align,
{
    proof {
        lemma_word_pow2(align);
    }
    if !is_power_of_two(align) {
        return addr;
    }
    let r = (addr + align - 1) & !(align - 1);
    proof {
        lemma_align_up_bits(addr, align, r);
    }
    r
}

/// Rounds `addr` down to a multiple of `align` when `align` is a power of
/// two; any other `align` leaves `addr` as it is.
pub fn align_down(addr: usize, align: usize) -> (r: usize)
    ensures
        !word_pow2(align) ==> r == addr,
        word_pow2(align) ==> r % align == 0 && r <= addr && addr < r + align,
{
    proof {
        lemma_word_pow2(align);
    }
    if !is_power_of_two(align) {
        return addr;
    }
    let r = addr & !(align - 1);
    proof {
        lemma_align_down_bits(addr, align, r);
    }
    r
}

/// The index of the highest set bit of `v` (0 for 0). The word is 64 bits
/// wide, so the index is `63 - clz64(v)`.
pub fn log2_floor(v: usize) -> (r: usize)
    ensures
        v == 0 ==> r == 0,
        v != 0 ==> r < usize::BITS && (v as u64) >> (r as u64) == 1,
{
    if v == 0 {
        return 0;
    }
    let n = clz64(v as u64);
    let r = 63 - n as usize;
    assert((v as u64) >> (r as u64) == 1 && r < 64 ==> r < usize::BITS) by (bit_vector);
    r
}

/// Hash mixing step: `seed ^ (value * K + (seed << 6) + (seed >> 2))`,
/// all in wrapping 64-bit arithmetic.
pub open spec fn hash_combine_spec(seed: u64, value: u64) -> u64 {
    seed ^ vstd::wrapping::u64_specs::wrapping_add(
        vstd::wrapping::u64_specs::wrapping_add(
            vstd::wrapping::u64_specs::wrapping_mul(value, 0x9e3779b97f4a7c15),
            seed << 6u64,
        ),
        seed >> 2u64,
    )
}

pub fn hash_combine(seed: u64, value: u64) -> (r: u64)
    ensures
        r == hash_combine_spec(seed, value),
{
    seed ^ (value.wrapping_mul(0x9e3779b97f4a7c15).wrapping_add(seed << 6).wrapping_add(seed >> 2))
}

/// The 64-bit finalizer of MurmurHash3 (`fmix64`).
pub open spec fn fmix64(h: u64) -> u64 {
    let h1 = h ^ (h >> 33u64);
    let h2 = vstd::wrapping::u64_specs::wrapping_mul(h1, 0xff51afd7ed558ccd);
    let h3 = h2 ^ (h2 >> 33u64);
    let h4 = vstd::wrapping::u64_specs::wrapping_mul(h3, 0xc4ceb9fe1a85ec53);
    h4 ^ (h4 >> 33u64)
}

/// The steps of `fmix64` undone: the xor-shift by 33 is its own inverse,
/// and each multiplication is undone by multiplying by the inverse of its
/// odd constant.
#[verifier::rlimit(100)]
proof fn lemma_fmix_steps(x: u64, y1: u64, y2: u64)
    by (bit_vector)
    ensures
        (x ^ (x >> 33u64)) ^ ((x ^ (x >> 33u64)) >> 33u64) == x,
        y1 == ((x * 0xff51afd7ed558ccdu64) % 0x1_0000_0000_0000_0000) as u64 ==> ((y1 * 0x4f74430c22a54005u64)
            % 0x1_0000_0000_0000_0000) as u64 == x,
        y2 == ((x * 0xc4ceb9fe1a85ec53u64) % 0x1_0000_0000_0000_0000) as u64 ==> ((y2 * 0x9cb4b2f8129337dbu64)
            % 0x1_0000_0000_0000_0000) as u64 == x,
        0u64 ^ (0u64 >> 33u64) == 0,
{
}

/// `fmix64` with its steps run backwards.
pub open spec fn unmix64(h: u64) -> u64 {
    let h3 = h ^ (h >> 33u64);
    let h2 = vstd::wrapping::u64_specs::wrapping_mul(h3, 0x9cb4b2f8129337db);
    let h1 = h2 ^ (h2 >> 33u64);
    let h0 = vstd::wrapping::u64_specs::wrapping_mul(h1, 0x4f74430c22a54005);
    h0 ^ (h0 >> 33u64)
}

proof fn lemma_unmix64(a: u64)
    ensures
        unmix64(fmix64(a)) == a,
{
    let h1 = a ^ (a >> 33u64);
    let h2 = vstd::wrapping::u64_specs::wrapping_mul(h1, 0xff51afd7ed558ccd);
    let h3 = h2 ^ (h2 >> 33u64);
    let h4 = vstd::wrapping::u64_specs::wrapping_mul(h3, 0xc4ceb9fe1a85ec53);
    let h5 = h4 ^ (h4 >> 33u64);
    assert(h2 == ((h1 * 0xff51afd7ed558ccdu64) % 0x1_0000_0000_0000_0000) as u64);
    assert(h4 == ((h3 * 0xc4ceb9fe1a85ec53u64) % 0x1_0000_0000_0000_0000) as u64);
    lemma_fmix_steps(h4, 0, 0);
    assert(h5 ^ (h5 >> 33u64) == h4);
    lemma_fmix_steps(h3, 0, h4);
    assert(vstd::wrapping::u64_specs::wrapping_mul(h4, 0x9cb4b2f8129337db) == h3);
    lemma_fmix_steps(h2, 0, 0);
    assert(h3 ^ (h3 >> 33u64) == h2);
    lemma_fmix_steps(h1, h2, 0);
    assert(vstd::wrapping::u64_specs::wrapping_mul(h2, 0x4f74430c22a54005) == h1);
    lemma_fmix_steps(a, 0, 0);
    assert(h1 ^ (h1 >> 33u64) == a);
}

/// The MurmurHash3 finalizer keeps 0 at 0 and never maps two words to the
/// same hash.
pub proof fn law_fmix64(a: u64, b: u64)
    ensures
        fmix64(0) == 0,
        fmix64(a) == fmix64(b) ==> a == b,
{
    lemma_fmix_steps(0, 0, 0);
    lemma_unmix64(a);
    lemma_unmix64(b);
}

pub fn murmurhash3_finalize(h: u64) -> (r: u64)
    ensures
        r == fmix64(h),
{
    let mut h = h;
    h ^= h >> 33;
    h = h.wrapping_mul(0xff51afd7ed558ccd);
    h ^= h >> 33;
    h = h.wrapping_mul(0xc4ceb9fe1a85ec53);
    h ^= h >> 33;
    h
}

/// The low `width` bits of a word.
pub open spec fn low_mask(width: u32) -> u64 {
    if width == 64 {
        !0u64
    } else {
        ((1u64 << width) - 1) as u64
    }
}

/// Rotates the low `width` bits of `value` left by `amount % width`; the
/// bits above `width` are cleared. A width of 0 or above 64, or a rotation
/// by a multiple of `width`, leaves `value` unchanged.
pub open spec fn rotate_spec(value: u64, amount: u32, width: u32) -> u64 {
    if width == 0 || width > 64 || amount % width == 0 {
        value
    } else {
        let a = amount % width;
        let v = value & low_mask(width);
        ((v << a) | (v >> ((width - a) as u32))) & low_mask(width)
    }
}

pub fn rotate_bits(value: u64, amount: u32, width: u32) -> (r: u64)
    ensures
        r == rotate_spec(value, amount, width),
{
    if width == 0 || width > 64 {
        return value;
    }
    proof {
        if width < 64 {
            vstd::bits::lemma_u64_pow2_no_overflow(width as nat);
            vstd::bits::lemma_u64_shl_is_mul(1u64, width as u64);
            vstd::arithmetic::power2::lemma_pow2_pos(width as nat);
        }
    }
    let actual = amount % width;
    if actual == 0 {
        return value;
    }
    let mask = if width == 64 { !0u64 } else { (1u64 << width) - 1 };
    let v = value & mask;
    ((v << actual) | (v >> (width - actual))) & mask
}


/// Rotating the low `w` bits of `v` by `a` (strictly between 0 and `w`)
/// leaves nothing above `w`, and rotating the result by `w - a` gives the
/// low `w` bits of `v` back.
proof fn lemma_rotate_core(v: u64, a: u32, w: u32)
    by (bit_vector)
    requires
        0 < a < w,
        w <= 64,
    ensures
        ({
            let m = low_mask(w);
            let x = v & m;
            let r = ((x << a) | (x >> ((w - a) as u32))) & m;
            let y = r & m;
            &&& r & !m == 0
            &&& ((y << ((w - a) as u32)) | (y >> ((w - (w - a)) as u32))) & m == x
        }),
{
}

/// A rotation by an amount that is not a multiple of the width keeps the
/// result within the width, and rotating back by the rest of the width
/// gives the low bits of the value back.
pub proof fn law_rotate_bits(value: u64, amount: u32, width: u32)
    requires
        0 < width <= 64,
        amount % width != 0,
    ensures
        rotate_spec(value, amount, width) & !low_mask(width) == 0,
        rotate_spec(rotate_spec(value, amount, width), (width - amount % width) as u32, width) == value & low_mask(width),
{
    let a = amount % width;
    lemma_rotate_core(value, a, width);
    let b = (width - a) as u32;
    vstd::arithmetic::div_mod::lemma_small_mod(b as nat, width as nat);
    assert(b % width == b);
}

/// Bit `i` of `x`, as 0 or 1.
pub open spec fn bit_at(x: u64, i: int) -> int {
    ((x >> (i as u64)) & 1u64) as int
}

/// The number of set bits of `x` at positions `lo..hi`.
pub open spec fn ones_between(x: u64, lo: int, hi: int) -> int
    decreases hi - lo,
{
    if hi <= lo {
        0
    } else {
        ones_between(x, lo, hi - 1) + bit_at(x, hi - 1)
    }
}

/// Every bit of a rotation is a bit of the value: position `i` below the
/// width holds bit `i - a` of `v`, wrapping round the width, and nothing is
/// set above it. Masking to the width keeps the bits below it.
#[verifier::rlimit(100)]
proof fn lemma_rotate_each_bit(v: u64, a: u32, w: u32, x: u64, r: u64)
    by (bit_vector)
    requires
        0 < a < w,
        w <= 64,
        x == v & low_mask(w),
        r == ((x << a) | (x >> ((w - a) as u32))) & low_mask(w),
    ensures
        forall|y: u64, i: u64| #![trigger (y >> i) & 1u64] (y >> i) & 1u64 <= 1u64,
        forall|i: u64|
            #![trigger (r >> i) & 1u64]
            i < 64 ==> (r >> i) & 1u64 == if i < w {
                if i >= a {
                    (v >> ((i - a) as u64)) & 1u64
                } else {
                    (v >> ((i + w - a) as u64)) & 1u64
                }
            } else {
                0u64
            },
        forall|i: u64| #![trigger (x >> i) & 1u64] i < 64 ==> (x >> i) & 1u64 == if i < w {
            (v >> i) & 1u64
        } else {
            0u64
        },
{
}

proof fn lemma_count_ones_between(v: u64)
    requires
        forall|x: u64, i: u64| #![trigger (x >> i) & 1u64] (x >> i) & 1u64 <= 1u64,
    ensures
        count_ones_spec(v) as int == ones_between(v, 0, 64),
{
    reveal_with_fuel(ones_between, 65);
}

proof fn lemma_ones_split(x: u64, lo: int, mid: int, hi: int)
    requires
        lo <= mid <= hi,
    ensures
        ones_between(x, lo, hi) == ones_between(x, lo, mid) + ones_between(x, mid, hi),
    decreases hi - mid,
{
    if hi > mid {
        lemma_ones_split(x, lo, mid, hi - 1);
    }
}

proof fn lemma_ones_shift(r: u64, x: u64, lo: int, hi: int, d: int)
    requires
        forall|i: int| lo <= i < hi ==> #[trigger] bit_at(r, i) == bit_at(x, i + d),
    ensures
        ones_between(r, lo, hi) == ones_between(x, lo + d, hi + d),
    decreases hi - lo,
{
    if hi > lo {
        lemma_ones_shift(r, x, lo, hi - 1, d);
        assert(bit_at(r, hi - 1) == bit_at(x, hi - 1 + d));
    }
}

proof fn lemma_ones_zero(x: u64, lo: int, hi: int)
    requires
        forall|i: int| lo <= i < hi ==> #[trigger] bit_at(x, i) == 0,
    ensures
        ones_between(x, lo, hi) == 0,
    decreases hi - lo,
{
    if hi > lo {
        lemma_ones_zero(x, lo, hi - 1);
        assert(bit_at(x, hi - 1) == 0);
    }
}

/// A rotation by an amount that is not a multiple of the width moves bits
/// around and sets no new one: the result has as many set bits as the low
/// `width` bits of the value.
pub proof fn law_rotate_keeps_ones(value: u64, amount: u32, width: u32)
    requires
        0 < width <= 64,
        amount % width != 0,
    ensures
        count_ones_spec(rotate_spec(value, amount, width)) == count_ones_spec(value & low_mask(width)),
{
    let a = amount % width;
    let w = width as int;
    let m = low_mask(width);
    let x = value & m;
    let r = rotate_spec(value, amount, width);
    assert(r == ((x << a) | (x >> ((width - a) as u32))) & m);
    lemma_rotate_each_bit(value, a, width, x, r);
    lemma_count_ones_between(r);
    lemma_count_ones_between(x);
    assert forall|i: int| 0 <= i < a implies #[trigger] bit_at(r, i) == bit_at(value, i + (w - a)) by {
        assert((r >> (i as u64)) & 1u64 == (value >> (((i as u64) + width - a) as u64)) & 1u64);
    }
    assert forall|i: int| a <= i < w implies #[trigger] bit_at(r, i) == bit_at(value, i + (-a)) by {
        assert((r >> (i as u64)) & 1u64 == (value >> (((i as u64) - a) as u64)) & 1u64);
    }
    assert forall|i: int| w <= i < 64 implies #[trigger] bit_at(r, i) == 0 by {
        assert((r >> (i as u64)) & 1u64 == 0u64);
    }
    assert forall|i: int| 0 <= i < w implies #[trigger] bit_at(x, i) == bit_at(value, i + 0) by {
        assert((x >> (i as u64)) & 1u64 == (value >> (i as u64)) & 1u64);
    }
    assert forall|i: int| w <= i < 64 implies #[trigger] bit_at(x, i) == 0 by {
        assert((x >> (i as u64)) & 1u64 == 0u64);
    }
    lemma_ones_split(r, 0, a as int, w);
    lemma_ones_split(r, 0, w, 64);
    lemma_ones_shift(r, value, 0, a as int, w - a);
    lemma_ones_shift(r, value, a as int, w, -a);
    lemma_ones_zero(r, w, 64);
    lemma_ones_split(x, 0, w, 64);
    lemma_ones_shift(x, value, 0, w, 0);
    lemma_ones_zero(x, w, 64);
    lemma_ones_split(value, 0, w - a, w);
}

} // verus!
