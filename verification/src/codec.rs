//! Byte codecs: CRC-32, variable-length integers, access checks on user
//! ranges.
use vstd::prelude::*;
use crate::consts::{KERN_BASE, KHEAP_SZ, PAGE_SIZE};

verus! {

pub const CRC_POLY: u32 = 0xEDB8_8320;

/// `k` rounds of the reflected CRC-32 shift register on `c`.
pub open spec fn crc_shift(c: u32, k: nat) -> u32
    decreases k,
{
    if k == 0 {
        c
    } else {
        crc_shift(if c & 1 != 0 { (c >> 1u32) ^ CRC_POLY } else { c >> 1u32 }, (k - 1) as nat)
    }
}

/// The register after the bytes of `d` are fed in, from `init`.
pub open spec fn crc_feed(init: u32, d: Seq<u8>) -> u32
    decreases d.len(),
{
    if d.len() == 0 {
        init
    } else {
        crc_shift(crc_feed(init, d.drop_last()) ^ (d.last() as u32), 8)
    }
}

/// The CRC-32 of `data`.
pub fn compute_crc32(data: &[u8]) -> (r: u32)
    ensures
        r == !crc_feed(0xFFFF_FFFF, data@),
{
    let mut crc: u32 = 0xFFFF_FFFF;
    let mut i: usize = 0;
    while i < data.len()
        invariant
            i <= data@.len(),
            crc == crc_feed(0xFFFF_FFFF, data@.take(i as int)),
        decreases data@.len() - i,
    {
        proof {
            assert(data@.take(i + 1).drop_last() =~= data@.take(i as int));
        }
        crc = crc ^ (data[i] as u32);
        let ghost start = crc;
        let mut k: usize = 0;
        while k < 8
            invariant
                k <= 8,
                crc_shift(crc, (8 - k) as nat) == crc_shift(start, 8),
            decreases 8 - k,
        {
            if crc & 1 != 0 {
                crc = (crc >> 1u32) ^ CRC_POLY;
            } else {
                crc = crc >> 1u32;
            }
            k = k + 1;
        }
        i = i + 1;
    }
    assert(data@.take(data@.len() as int) =~= data@);
    !crc
}

/// Facts about one seven-bit group of `w`: shifting it out shrinks a value
/// that has more, and the byte it becomes reads back as the group.
pub proof fn lemma_group_bits(w: u64)
    by (bit_vector)
    ensures
        w >> 7u64 != 0 ==> w >> 7u64 < w,
        (w & 0x7Fu64) as u8 | 0x80u8 == ((w & 0x7Fu64) | 0x80u64) as u8,
        w >> 7u64 == 0 ==> ((w & 0x7Fu64) as u8) & 0x80u8 == 0 && (((w & 0x7Fu64) as u8) & 0x7Fu8) as u64 == w,
        w >> 1u64 == 0 ==> (w & 0x7Fu64) as u8 <= 1,
        (((w & 0x7Fu64) | 0x80u64) as u8) & 0x80u8 != 0,
        ((((w & 0x7Fu64) | 0x80u64) as u8) & 0x7Fu8) as u64 == w & 0x7Fu64,
        (((w & 0x7Fu64) | 0x80u64) as u8) > 1,
        (w >> 7u64) >> 57u64 == 0,
        (w >> 7u64) >> 63u64 == 0,
        0u64 | (w << 0u64) == w,
        0u64 >> 0u64 == 0,
{
}

/// Facts about a group of `w` placed at bit `c` over a value `acc` whose
/// bits lie below `c`.
proof fn lemma_group_at(w: u64, acc: u64, c: u64)
    by (bit_vector)
    requires
        c <= 56,
    ensures
        w >> (c + 7) == 0 ==> (w >> 7u64) >> c == 0,
        acc >> c == 0 ==> (acc | ((w & 0x7Fu64) << c)) >> (c + 7) == 0,
        acc >> c == 0 ==> (acc | ((w & 0x7Fu64) << c)) | ((w >> 7u64) << (c + 7)) == acc | (w << c),
        (c >= 7 && w >> ((64 - c) as u64) == 0) ==> (w >> 7u64) >> ((57 - c) as u64) == 0,
{
}

/// The LEB128 encoding of `v`: seven bits a byte, low bits first, the top
/// bit set on every byte but the last.
pub open spec fn varint_bytes(v: u64) -> Seq<u8>
    decreases v,
{
    if v >> 7u64 == 0 {
        seq![(v & 0x7F) as u8]
    } else {
        proof {
            lemma_group_bits(v);
        }
        seq![((v & 0x7F) | 0x80) as u8] + varint_bytes(v >> 7u64)
    }
}

/// Appends the encoding of `value` to `out` and returns its length.
pub fn encode_varint(value: u64, out: &mut Vec<u8>) -> (r: usize)
    ensures
        final(out)@ == old(out)@ + varint_bytes(value),
        r == varint_bytes(value).len(),
{
    proof {
        lemma_varint_len(value);
    }
    let mut v = value;
    let mut count: usize = 0;
    loop
        invariant_except_break
            old(out)@ + varint_bytes(value) == out@ + varint_bytes(v),
            count + varint_bytes(v).len() == varint_bytes(value).len(),
        invariant
            varint_bytes(value).len() <= 10,
            count == out@.len() - old(out)@.len(),
        ensures
            out@ == old(out)@ + varint_bytes(value),
            count == varint_bytes(value).len(),
        decreases v,
    {
        let ghost before = v;
        let mut byte = (v & 0x7F) as u8;
        v = v >> 7u64;
        if v != 0 {
            byte = byte | 0x80;
        }
        proof {
            lemma_group_bits(before);
            if before >> 7u64 == 0 {
                assert(varint_bytes(before) == seq![(before & 0x7F) as u8]);
            }
            lemma_varint_len(v);
        }
        out.push(byte);
        count = count + 1;
        if v == 0 {
            assert(out@ =~= old(out)@ + varint_bytes(value));
            break;
        }
        assert(old(out)@ + varint_bytes(value) =~= out@ + varint_bytes(v));
    }
    count
}

proof fn lemma_varint_len(v: u64)
    ensures
        1 <= varint_bytes(v).len() <= 10,
    decreases v,
{
    if v >> 7u64 != 0 {
        lemma_group_bits(v);
        lemma_varint_len(v >> 7u64);
        lemma_varint_short(v);
    }
}

proof fn lemma_varint_short(v: u64)
    ensures
        varint_bytes(v).len() <= 10,
{
    lemma_varint_bound(v, 10);
}

/// A value below `2^(7k)` takes at most `k` bytes.
proof fn lemma_varint_bound(v: u64, k: nat)
    requires
        1 <= k <= 10,
        k < 10 ==> v >> ((k * 7) as u64) == 0,
    ensures
        varint_bytes(v).len() <= k,
    decreases k,
{
    if v >> 7u64 != 0 {
        lemma_group_bits(v);
        let w = v >> 7u64;
        if k == 1 {
            assert(v >> 7u64 == 0);
        } else {
            let c = ((k - 1) * 7) as u64;
            if k < 10 {
                lemma_group_at(v, 0, c);
                assert(((k * 7) as u64) == c + 7);
            } else {
                assert(c == 63);
            }
            lemma_varint_bound(w, (k - 1) as nat);
        }
    }
}

/// What `decode_varint` makes of `d` from byte `i` on, with `acc` read so
/// far and the next group at bit `shift`.
pub open spec fn varint_read(d: Seq<u8>, i: nat, shift: nat, acc: u64) -> Option<(u64, usize)>
    decreases d.len() - i,
{
    if i >= d.len() {
        None
    } else {
        let byte = d[i as int];
        if shift >= 63 && byte > 1 {
            None
        } else {
            let acc2 = acc | ((((byte & 0x7F) as u64) << (shift as u64)) as u64);
            if byte & 0x80 == 0 {
                Some((acc2, (i + 1) as usize))
            } else if i >= 9 {
                None
            } else {
                varint_read(d, i + 1, shift + 7, acc2)
            }
        }
    }
}

/// Reads a LEB128 value from the front of `data`: the value and the bytes
/// it took, or `None` when the data ends first, the value would not fit
/// in 64 bits, or it runs past ten bytes.
pub fn decode_varint(data: &[u8]) -> (r: Option<(u64, usize)>)
    ensures
        r == varint_read(data@, 0, 0, 0),
{
    let mut result: u64 = 0;
    let mut shift: u64 = 0;
    let mut i: usize = 0;
    while i < data.len()
        invariant
            i <= data@.len(),
            i <= 9,
            shift == 7 * i,
            varint_read(data@, i as nat, shift as nat, result) == varint_read(data@, 0, 0, 0),
        decreases data@.len() - i,
    {
        let byte = data[i];
        if shift >= 63 && byte > 1 {
            return None;
        }
        result = result | (((byte & 0x7F) as u64) << shift);
        if byte & 0x80 == 0 {
            return Some((result, i + 1));
        }
        if i >= 9 {
            return None;
        }
        shift = shift + 7;
        i = i + 1;
    }
    None
}

/// Reading the encoding of `w` behind `i` bytes already read into `acc`
/// (whose bits lie below `7 i`) finishes the value `acc | w << 7 i`.
proof fn lemma_read_encoding(p: Seq<u8>, w: u64, i: nat, acc: u64)
    requires
        p.len() == i,
        i <= 9,
        i + varint_bytes(w).len() <= 10,
        acc >> ((7 * i) as u64) == 0,
        i > 0 ==> w >> ((64 - 7 * i) as u64) == 0,
    ensures
        varint_read(p + varint_bytes(w), i, 7 * i, acc) == Some(
            (acc | (w << ((7 * i) as u64)), (i + varint_bytes(w).len()) as usize),
        ),
    decreases w,
{
    let s = p + varint_bytes(w);
    let c = (7 * i) as u64;
    assert(c <= 63);
    lemma_varint_len(w);
    lemma_group_bits(w);
    if w >> 7u64 == 0 {
        assert(varint_bytes(w) == seq![(w & 0x7F) as u8]);
        let b = (w & 0x7Fu64) as u8;
        assert(s[i as int] == b);
        if i == 9 {
            assert(w >> 1u64 == 0);
        }
    } else {
        let b = ((w & 0x7F) | 0x80) as u8;
        let w2 = w >> 7u64;
        assert(varint_bytes(w) == seq![b] + varint_bytes(w2));
        assert(s[i as int] == b);
        assert(i < 9);
        assert(c <= 56);
        let acc2 = acc | (((b & 0x7F) as u64) << c);
        lemma_group_at(w, acc, c);
        assert(acc2 == acc | ((w & 0x7Fu64) << c));
        if i > 0 {
            assert(((64 - c) as u64) == 64 - 7 * i);
            assert(w2 >> ((64 - 7 * (i + 1)) as u64) == 0);
        } else {
            assert(((64 - 7 * (i + 1)) as u64) == 57);
        }
        let p2 = p.push(b);
        assert(p2 + varint_bytes(w2) =~= s);
        assert(((7 * (i + 1)) as u64) == c + 7);
        assert((64 - 7 * (i + 1)) as u64 == 64 - c - 7);
        lemma_read_encoding(p2, w2, i + 1, acc2);
    }
}

/// Encoding a value and decoding the bytes gives the value back, with the
/// length of its encoding.
pub proof fn law_varint_round_trip(v: u64)
    ensures
        varint_read(varint_bytes(v), 0, 0, 0) == Some((v, varint_bytes(v).len() as usize)),
{
    lemma_varint_len(v);
    lemma_group_bits(v);
    assert(Seq::<u8>::empty() + varint_bytes(v) =~= varint_bytes(v));
    lemma_read_encoding(Seq::empty(), v, 0, 0);
}

} // verus!
