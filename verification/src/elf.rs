//! Validation of a 64-bit little-endian ELF executable header.
use vstd::prelude::*;
use vstd::arithmetic::mul::lemma_mul_inequality;

verus! {

/// The little-endian 16-bit value at `off`.
pub open spec fn le16(d: Seq<u8>, off: int) -> int {
    d[off] + 0x100 * d[off + 1]
}

/// The little-endian 32-bit value at `off`.
pub open spec fn le32(d: Seq<u8>, off: int) -> int {
    d[off] + 0x100 * d[off + 1] + 0x10000 * d[off + 2] + 0x1000000 * d[off + 3]
}

/// The little-endian 64-bit value at `off`.
pub open spec fn le64(d: Seq<u8>, off: int) -> int {
    le32(d, off) + 0x1_0000_0000 * le32(d, off + 4)
}

/// The entry point field, as an address.
pub open spec fn elf_entry(d: Seq<u8>) -> usize {
    le64(d, 24) as u64 as usize
}

/// The program header table offset, as an address.
pub open spec fn elf_phoff(d: Seq<u8>) -> usize {
    le64(d, 32) as u64 as usize
}

pub open spec fn elf_phentsize(d: Seq<u8>) -> int {
    le16(d, 54)
}

pub open spec fn elf_phnum(d: Seq<u8>) -> int {
    le16(d, 56)
}

/// Where the program header table ends.
pub open spec fn elf_ph_end(d: Seq<u8>) -> int {
    elf_phoff(d) + elf_phentsize(d) * elf_phnum(d)
}

/// Where program header `idx` starts.
pub open spec fn elf_ph_base(d: Seq<u8>, idx: int) -> int {
    elf_phoff(d) + idx * elf_phentsize(d)
}

/// Program header `idx` lies in the data and is a loadable segment.
pub open spec fn is_load_at(d: Seq<u8>, idx: int) -> bool {
    elf_ph_base(d, idx) + 4 <= d.len() && le32(d, elf_ph_base(d, idx)) == 1
}

pub open spec fn has_load(d: Seq<u8>) -> bool {
    exists|idx: int| 0 <= idx < elf_phnum(d) && #[trigger] is_load_at(d, idx)
}

/// The identification bytes and the header fields before the program
/// header table are all acceptable.
pub open spec fn ident_ok(d: Seq<u8>) -> bool {
    &&& d.len() >= 64
    &&& d[0] == 0x7f && d[1] == 0x45 && d[2] == 0x4c && d[3] == 0x46
    &&& d[4] == 2
    &&& d[5] == 1
    &&& d[6] == 1
    &&& (le16(d, 16) == 2 || le16(d, 16) == 3)
    &&& elf_phnum(d) != 0
}

/// The verdict on a header: the first failing check names the error.
pub open spec fn elf_verdict(d: Seq<u8>) -> Result<usize, &'static str> {
    if d.len() < 64 {
        Err("too_short")
    } else if !(d[0] == 0x7f && d[1] == 0x45 && d[2] == 0x4c && d[3] == 0x46) {
        Err("bad_magic")
    } else if d[4] != 2 {
        Err("not_64bit")
    } else if d[5] != 1 {
        Err("not_le")
    } else if d[6] != 1 {
        Err("bad_version")
    } else if le16(d, 16) != 2 && le16(d, 16) != 3 {
        Err("not_exec")
    } else if elf_phnum(d) == 0 {
        Err("no_phdrs")
    } else if elf_ph_end(d) > d.len() {
        Err("ph_overflow")
    } else if !has_load(d) {
        Err("no_load")
    } else {
        Ok(elf_entry(d))
    }
}

fn read_le16(data: &[u8], off: usize) -> (r: u16)
    requires
        off + 2 <= data@.len(),
    ensures
        r == le16(data@, off as int),
{
    let b0 = data[off] as u16;
    let b1 = data[off + 1] as u16;
    let r = b0 | (b1 << 8u16);
    assert(r == b0 + 0x100 * b1) by (bit_vector)
        requires
            b0 < 256,
            b1 < 256,
            r == b0 | (b1 << 8u16),
    ;
    r
}

fn read_le32(data: &[u8], off: usize) -> (r: u32)
    requires
        off + 4 <= data@.len(),
    ensures
        r == le32(data@, off as int),
{
    let b0 = data[off] as u32;
    let b1 = data[off + 1] as u32;
    let b2 = data[off + 2] as u32;
    let b3 = data[off + 3] as u32;
    let r = b0 | (b1 << 8u32) | (b2 << 16u32) | (b3 << 24u32);
    assert(r == b0 + 0x100 * b1 + 0x10000 * b2 + 0x1000000 * b3) by (bit_vector)
        requires
            b0 < 256,
            b1 < 256,
            b2 < 256,
            b3 < 256,
            r == b0 | (b1 << 8u32) | (b2 << 16u32) | (b3 << 24u32),
    ;
    r
}

fn read_le64(data: &[u8], off: usize) -> (r: u64)
    requires
        off + 8 <= data@.len(),
    ensures
        r == le64(data@, off as int),
{
    let n = data.len();
    let lo = read_le32(data, off) as u64;
    let hi = read_le32(data, off + 4) as u64;
    let r = lo | (hi << 32u64);
    assert(r == lo + 0x1_0000_0000 * hi) by (bit_vector)
        requires
            lo < 0x1_0000_0000,
            hi < 0x1_0000_0000,
            r == lo | (hi << 32u64),
    ;
    r
}

/// Checks an ELF header and returns its entry point.
pub fn validate_elf_header(data: &[u8]) -> (r: Result<usize, &'static str>)
    requires
        ident_ok(data@) ==> elf_ph_end(data@) <= usize::MAX,
    ensures
        r == elf_verdict(data@),
{
    if data.len() < 64 {
        return Err("too_short");
    }
    if data[0] != 0x7f || data[1] != 0x45 || data[2] != 0x4c || data[3] != 0x46 {
        return Err("bad_magic");
    }
    if data[4] != 2 {
        return Err("not_64bit");
    }
    if data[5] != 1 {
        return Err("not_le");
    }
    if data[6] != 1 {
        return Err("bad_version");
    }
    let e_type = read_le16(data, 16);
    if e_type != 2 && e_type != 3 {
        return Err("not_exec");
    }
    let e_entry = read_le64(data, 24) as usize;
    let e_phoff = read_le64(data, 32) as usize;
    let e_phentsize = read_le16(data, 54) as usize;
    let e_phnum = read_le16(data, 56) as usize;
    if e_phnum == 0 {
        return Err("no_phdrs");
    }
    assert(e_phentsize * e_phnum <= 0xffff * 0xffff) by (nonlinear_arith)
        requires
            e_phentsize <= 0xffff,
            e_phnum <= 0xffff,
    ;
    let ph_end = e_phoff + e_phentsize * e_phnum;
    if ph_end > data.len() {
        return Err("ph_overflow");
    }
    let ghost d = data@;
    let mut load_count: usize = 0;
    let mut interp_found = false;
    let mut idx: usize = 0;
    while idx < e_phnum
        invariant_except_break
            idx <= e_phnum,
        invariant
            d == data@,
            d.len() >= 64,
            e_phoff == elf_phoff(d),
            e_phentsize == elf_phentsize(d),
            e_phnum == elf_phnum(d),
            ph_end == elf_ph_end(d),
            ph_end <= d.len(),
            load_count <= idx,
            load_count > 0 <==> exists|j: int| 0 <= j < idx && #[trigger] is_load_at(d, j),
        ensures
            load_count > 0 <==> has_load(d),
        decreases e_phnum - idx,
    {
        assert(idx * e_phentsize <= (e_phnum - 1) * e_phentsize) by {
            lemma_mul_inequality(idx as int, e_phnum - 1, e_phentsize as int);
        }
        assert((e_phnum - 1) * e_phentsize + e_phentsize == e_phnum * e_phentsize) by (nonlinear_arith);
        assert(e_phnum * e_phentsize == e_phentsize * e_phnum) by (nonlinear_arith);
        let base = e_phoff + idx * e_phentsize;
        assert(base == elf_ph_base(d, idx as int));
        if base > data.len() - 4 {
            proof {
                assert forall|j: int| idx <= j < e_phnum implies !#[trigger] is_load_at(d, j) by {
                    lemma_mul_inequality(idx as int, j, e_phentsize as int);
                }
            }
            break;
        }
        let p_type = read_le32(data, base);
        if p_type == 1 {
            load_count = load_count + 1;
            assert(is_load_at(d, idx as int));
        } else if p_type == 3 {
            interp_found = true;
        }
        idx = idx + 1;
    }
    if load_count == 0 {
        return Err("no_load");
    }
    Ok(e_entry)
}

} // verus!
