use kernel::bits::{
    align_down, align_up, bitwise_merge, clz64, ffs64, hash_combine, is_power_of_two, log2_floor,
    murmurhash3_finalize, popcount64, rotate_bits,
};
use kernel::codec::{compute_crc32, decode_varint, encode_varint};
use kernel::net::{build_pseudo_header, compute_inet_checksum, parse_ipv4_header, tcp_checksum};

#[test]
fn popcount_counts_set_bits() {
    assert_eq!(popcount64(0), 0);
    assert_eq!(popcount64(0xFF), 8);
    assert_eq!(popcount64(0x8000_0000_0000_0001), 2);
    assert_eq!(popcount64(u64::MAX), 64);
}

#[test]
fn clz_counts_leading_zeros() {
    assert_eq!(clz64(0), 64);
    assert_eq!(clz64(1), 63);
    assert_eq!(clz64(0x8000_0000_0000_0000), 0);
    assert_eq!(clz64(0x0000_0001_0000_0000), 31);
}

#[test]
fn ffs_finds_lowest_bit() {
    assert_eq!(ffs64(0), None);
    assert_eq!(ffs64(1), Some(0));
    assert_eq!(ffs64(8), Some(3));
    assert_eq!(ffs64(0x8000_0000_0000_0000), Some(63));
    assert_eq!(ffs64(0b1010_0000), Some(5));
}

#[test]
fn power_of_two_test() {
    assert!(!is_power_of_two(0));
    assert!(is_power_of_two(1));
    assert!(is_power_of_two(4096));
    assert!(!is_power_of_two(6));
}

#[test]
fn alignment_rounds_to_power_of_two() {
    assert_eq!(align_up(5, 4), 8);
    assert_eq!(align_up(8, 4), 8);
    assert_eq!(align_up(1, 4096), 4096);
    assert_eq!(align_down(7, 4), 4);
    assert_eq!(align_down(4097, 4096), 4096);
}

#[test]
fn alignment_ignores_other_values() {
    assert_eq!(align_up(5, 3), 5);
    assert_eq!(align_down(5, 0), 5);
}

#[test]
fn log2_floor_is_highest_bit() {
    assert_eq!(log2_floor(0), 0);
    assert_eq!(log2_floor(1), 0);
    assert_eq!(log2_floor(1024), 10);
    assert_eq!(log2_floor(1025), 10);
}

#[test]
fn merge_takes_masked_bits() {
    assert_eq!(bitwise_merge(0xF0, 0x0F, 0xFF), 0x0F);
    assert_eq!(bitwise_merge(0xAAAA, 0x5555, 0x00FF), 0xAA55);
}

#[test]
fn hash_combine_formula() {
    assert_eq!(hash_combine(0, 0), 0);
    assert_eq!(hash_combine(1, 0), 65);
    assert_eq!(hash_combine(0, 1), 0x9e3779b97f4a7c15);
}

#[test]
fn murmur_finalizer_fixes_zero() {
    assert_eq!(murmurhash3_finalize(0), 0);
    assert_ne!(murmurhash3_finalize(1), 1);
}

#[test]
fn rotate_within_width() {
    assert_eq!(rotate_bits(0b0001, 1, 4), 0b0010);
    assert_eq!(rotate_bits(0b1000, 1, 4), 0b0001);
    assert_eq!(rotate_bits(0b1_0001, 1, 4), 0b0010);
    assert_eq!(rotate_bits(7, 3, 0), 7);
    assert_eq!(rotate_bits(7, 4, 4), 7);
    assert_eq!(rotate_bits(1, 1, 64), 2);
}

#[test]
fn crc32_check_value() {
    assert_eq!(compute_crc32(b"123456789"), 0xCBF4_3926);
    assert_eq!(compute_crc32(b""), 0);
}

#[test]
fn varint_encodes_groups_of_seven() {
    let mut out = Vec::new();
    assert_eq!(encode_varint(300, &mut out), 2);
    assert_eq!(out, vec![0xAC, 0x02]);
    let mut one = vec![9u8];
    assert_eq!(encode_varint(0, &mut one), 1);
    assert_eq!(one, vec![9, 0]);
}

#[test]
fn varint_round_trip() {
    for v in [0u64, 1, 127, 128, 300, 1 << 35, u64::MAX] {
        let mut out = Vec::new();
        let n = encode_varint(v, &mut out);
        assert_eq!(decode_varint(&out), Some((v, n)));
    }
    let mut out = Vec::new();
    assert_eq!(encode_varint(u64::MAX, &mut out), 10);
}

#[test]
fn varint_rejects_truncated_and_long_input() {
    assert_eq!(decode_varint(&[]), None);
    assert_eq!(decode_varint(&[0x80]), None);
    assert_eq!(decode_varint(&[0x80; 11]), None);
    assert_eq!(decode_varint(&[0xFF, 0xFF, 0xFF, 0xFF, 0xFF, 0xFF, 0xFF, 0xFF, 0xFF, 0x02]), None);
    assert_eq!(decode_varint(&[0x05, 0x80]), Some((5, 1)));
}

#[test]
fn inet_checksum_complements_folded_sum() {
    assert_eq!(compute_inet_checksum(&[0x00, 0x01]), 0xFFFE);
    assert_eq!(compute_inet_checksum(&[]), 0xFFFF);
    assert_eq!(compute_inet_checksum(&[0x01]), 0xFEFF);
    assert_eq!(compute_inet_checksum(&[0xFF, 0xFF, 0x00, 0x01]), 0xFFFE);
}

#[test]
fn tcp_checksum_covers_pseudo_header() {
    // 0x0001 + 0x0000 + 0x0000 + 0x0002 + 6 + 0 = 9
    assert_eq!(tcp_checksum(0x0000_0001, 0x0000_0002, &[]), !9u16);
}

#[test]
fn ipv4_header_fields() {
    let mut pkt = vec![0u8; 20];
    pkt[0] = 0x45;
    pkt[2] = 0x01;
    pkt[3] = 0x02;
    pkt[9] = 6;
    pkt[12..16].copy_from_slice(&[10, 0, 0, 1]);
    pkt[16..20].copy_from_slice(&[192, 168, 1, 2]);
    assert_eq!(parse_ipv4_header(&pkt), Some((0x0A00_0001, 0xC0A8_0102, 6, 0x0102)));
    let mut v6 = pkt.clone();
    v6[0] = 0x65;
    assert_eq!(parse_ipv4_header(&v6), None);
    let mut long = pkt.clone();
    long[0] = 0x46;
    assert_eq!(parse_ipv4_header(&long), None);
    assert_eq!(parse_ipv4_header(&pkt[..19]), None);
}

#[test]
fn pseudo_header_layout() {
    let h = build_pseudo_header(0x0102_0304, 0x0506_0708, 17, 0x0A0B);
    assert_eq!(h, vec![1, 2, 3, 4, 5, 6, 7, 8, 0, 17, 0x0A, 0x0B]);
}
