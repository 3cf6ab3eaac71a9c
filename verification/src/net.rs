//! Internet checksums and IPv4 header parsing.
use vstd::prelude::*;

verus! {

/// The sum of the big-endian 16-bit words of `d`, a last odd byte counting
/// as the high byte of a word.
pub open spec fn words_sum(d: Seq<u8>) -> nat
    decreases d.len(),
{
    if d.len() == 0 {
        0
    } else if d.len() == 1 {
        d[0] as nat * 256
    } else {
        (d[0] as nat * 256 + d[1] as nat) + words_sum(d.skip(2))
    }
}

/// Word facts behind the checksums and header fields: folding the carry
/// shrinks a sum above 16 bits, and shifted bytes joined with `|` are their
/// big-endian values.
pub proof fn lemma_net_words(x: u32, b0: u32, b1: u32, b2: u32, b3: u32, hi: u16, lo: u16)
    by (bit_vector)
    ensures
        x > 0xFFFF ==> (x & 0xFFFFu32) + (x >> 16u32) < x,
        (x >> 16u32) & 0xFFFFu32 == x >> 16u32,
        b0 < 256 && b1 < 256 ==> (b0 << 8u32) | b1 == b0 * 256 + b1,
        b0 < 256 ==> b0 << 8u32 == b0 * 256,
        b0 < 256 && b1 < 256 && b2 < 256 && b3 < 256 ==> (b0 << 24u32) | (b1 << 16u32) | (b2 << 8u32) | b3
            == b0 * 0x1000000 + b1 * 0x10000 + b2 * 0x100 + b3,
        hi < 256 && lo < 256 ==> (hi << 8u16) | lo == hi * 256 + lo,
{
}

/// Adds the carries above 16 bits back in until the sum fits in 16 bits.
pub open spec fn fold16(x: u32) -> u32
    decreases x,
{
    if x > 0xFFFF {
        proof {
            lemma_net_words(x, 0, 0, 0, 0, 0, 0);
        }
        fold16(((x & 0xFFFFu32) + (x >> 16u32)) as u32)
    } else {
        x
    }
}

/// The checksum of a folded sum: its complement, in 16 bits.
pub open spec fn csum_of(total: u32) -> u16 {
    (!fold16(total)) as u16
}

/// The sum over the pseudo header and payload that `tcp_checksum` folds.
pub open spec fn tcp_sum(src_ip: u32, dst_ip: u32, payload: Seq<u8>) -> int {
    (src_ip >> 16u32) + (src_ip & 0xFFFFu32) + (dst_ip >> 16u32) + (dst_ip & 0xFFFFu32) + 6 + (payload.len() as u32)
        + words_sum(payload)
}

proof fn lemma_words_sum_step(d: Seq<u8>, i: int)
    requires
        0 <= i,
        i + 2 <= d.len(),
    ensures
        words_sum(d.skip(i)) == d[i] as nat * 256 + d[i + 1] as nat + words_sum(d.skip(i + 2)),
{
    assert(d.skip(i).skip(2) =~= d.skip(i + 2));
}

/// Adds the words of `d` to `sum`.
fn add_words(d: &[u8], sum: u32) -> (r: u32)
    requires
        sum + words_sum(d@) <= u32::MAX,
    ensures
        r == sum + words_sum(d@),
{
    let mut s = sum;
    let mut i: usize = 0;
    let n = d.len();
    assert(d@.skip(0) =~= d@);
    while n - i > 1
        invariant
            n == d@.len(),
            i <= n,
            s + words_sum(d@.skip(i as int)) == sum + words_sum(d@),
            sum + words_sum(d@) <= u32::MAX,
        decreases n - i,
    {
        proof {
            lemma_words_sum_step(d@, i as int);
        }
        let a = d[i] as u32;
        let b = d[i + 1] as u32;
        proof {
            lemma_net_words(0, a, b, 0, 0, 0, 0);
        }
        s = s + ((a << 8u32) | b);
        i = i + 2;
    }
    if i < n {
        assert(d@.skip(i as int).len() == 1);
        let a = d[i] as u32;
        proof {
            lemma_net_words(0, a, 0, 0, 0, 0, 0);
        }
        s = s + (a << 8u32);
    } else {
        assert(d@.skip(i as int).len() == 0);
    }
    s
}

fn fold_sum(x: u32) -> (r: u32)
    ensures
        r == fold16(x),
{
    let mut s = x;
    while s > 0xFFFF
        invariant
            fold16(s) == fold16(x),
        decreases s,
    {
        proof {
            lemma_net_words(s, 0, 0, 0, 0, 0, 0);
        }
        s = (s & 0xFFFF) + (s >> 16u32);
    }
    s
}

/// The states of a TCP connection.
#[derive(Clone, Copy, PartialEq, Eq, Structural)]
pub enum SocketState {
    Closed,
    Listen,
    SynSent,
    SynRecvd,
    Established,
    FinWait1,
    FinWait2,
    TimeWait,
    CloseWait,
    LastAck,
    Closing,
}

/// The TCP pseudo header, byte by byte: source and destination address,
/// a zero byte, protocol 6 and the payload length, all big-endian.
pub open spec fn tcp_pseudo_header(src_ip: u32, dst_ip: u32, len: u32) -> Seq<u8> {
    seq![
        (src_ip >> 24u32) as u8, ((src_ip >> 16u32) & 0xFFu32) as u8, ((src_ip >> 8u32) & 0xFFu32) as u8, (src_ip & 0xFFu32) as u8,
        (dst_ip >> 24u32) as u8, ((dst_ip >> 16u32) & 0xFFu32) as u8, ((dst_ip >> 8u32) & 0xFFu32) as u8, (dst_ip & 0xFFu32) as u8,
        0u8, 6u8, ((len >> 8u32) & 0xFFu32) as u8, (len & 0xFFu32) as u8,
    ]
}

/// The bytes of a word make up its two halves, and a length below 2^16 its
/// two low bytes.
proof fn lemma_word_bytes(x: u32, len: u32)
    by (bit_vector)
    ensures
        x >> 24u32 < 256,
        (x >> 16u32) & 0xFFu32 < 256,
        (x >> 8u32) & 0xFFu32 < 256,
        x & 0xFFu32 < 256,
        (x >> 24u32) * 256 + ((x >> 16u32) & 0xFFu32) == x >> 16u32,
        ((x >> 8u32) & 0xFFu32) * 256 + (x & 0xFFu32) == x & 0xFFFFu32,
        (len >> 8u32) & 0xFFu32 < 256,
        len & 0xFFu32 < 256,
        len < 0x10000 ==> ((len >> 8u32) & 0xFFu32) * 256 + (len & 0xFFu32) == len,
{
}

/// The sum the TCP checksum folds is the Internet checksum's sum over the
/// pseudo header followed by the payload, for any payload shorter than
/// 2^16 bytes: so the TCP checksum is the Internet checksum of those bytes,
/// and it depends on the payload's length as well as on its words.
pub proof fn law_tcp_sum_over_pseudo_header(src_ip: u32, dst_ip: u32, payload: Seq<u8>)
    requires
        payload.len() < 0x10000,
    ensures
        tcp_sum(src_ip, dst_ip, payload) == words_sum(tcp_pseudo_header(src_ip, dst_ip, payload.len() as u32) + payload),
        tcp_sum(src_ip, dst_ip, payload) <= u32::MAX ==> csum_of(tcp_sum(src_ip, dst_ip, payload) as u32) == csum_of(
            words_sum(tcp_pseudo_header(src_ip, dst_ip, payload.len() as u32) + payload) as u32,
        ),
{
    let len = payload.len() as u32;
    lemma_word_bytes(src_ip, len);
    lemma_word_bytes(dst_ip, len);
    let h = tcp_pseudo_header(src_ip, dst_ip, len);
    let d = h + payload;
    assert(d.skip(2).skip(2).skip(2).skip(2).skip(2).skip(2) =~= payload);
    assert(d.skip(2) =~= d.subrange(2, d.len() as int));
    let d2 = d.skip(2);
    let d4 = d2.skip(2);
    let d6 = d4.skip(2);
    let d8 = d6.skip(2);
    let d10 = d8.skip(2);
    assert(d2[0] == d[2] && d2[1] == d[3]);
    assert(d4[0] == d[4] && d4[1] == d[5]);
    assert(d6[0] == d[6] && d6[1] == d[7]);
    assert(d8[0] == d[8] && d8[1] == d[9]);
    assert(d10[0] == d[10] && d10[1] == d[11]);
    assert(d10.skip(2) =~= payload);
    assert(words_sum(d10) == d[10] as nat * 256 + d[11] as nat + words_sum(payload));
    assert(words_sum(d8) == d[8] as nat * 256 + d[9] as nat + words_sum(d10));
    assert(words_sum(d6) == d[6] as nat * 256 + d[7] as nat + words_sum(d8));
    assert(words_sum(d4) == d[4] as nat * 256 + d[5] as nat + words_sum(d6));
    assert(words_sum(d2) == d[2] as nat * 256 + d[3] as nat + words_sum(d4));
    assert(words_sum(d) == d[0] as nat * 256 + d[1] as nat + words_sum(d2));
}

/// The TCP checksum of `payload` from `src_ip` to `dst_ip`, over the pseudo
/// header (the addresses, protocol 6 and the payload's length) and the
/// payload.
pub fn tcp_checksum(src_ip: u32, dst_ip: u32, payload: &[u8]) -> (r: u16)
    requires
        tcp_sum(src_ip, dst_ip, payload@) <= u32::MAX,
    ensures
        r == csum_of(tcp_sum(src_ip, dst_ip, payload@) as u32),
{
    proof {
        lemma_net_words(src_ip, 0, 0, 0, 0, 0, 0);
        lemma_net_words(dst_ip, 0, 0, 0, 0, 0, 0);
    }
    let mut sum: u32 = 0;
    sum = sum + ((src_ip >> 16u32) & 0xFFFF);
    sum = sum + (src_ip & 0xFFFF);
    sum = sum + ((dst_ip >> 16u32) & 0xFFFF);
    sum = sum + (dst_ip & 0xFFFF);
    sum = sum + 6u32;
    sum = sum + payload.len() as u32;
    sum = add_words(payload, sum);
    let f = fold_sum(sum);
    !f as u16
}

/// The Internet checksum of `data`.
pub fn compute_inet_checksum(data: &[u8]) -> (r: u16)
    requires
        words_sum(data@) <= u32::MAX,
    ensures
        r == csum_of(words_sum(data@) as u32),
{
    let sum = add_words(data, 0);
    let f = fold_sum(sum);
    !f as u16
}

/// The big-endian 16-bit value at `off`.
pub open spec fn be16(d: Seq<u8>, off: int) -> u16 {
    (d[off] as int * 256 + d[off + 1] as int) as u16
}

/// The big-endian 32-bit value at `off`.
pub open spec fn be32(d: Seq<u8>, off: int) -> u32 {
    (d[off] as int * 0x1000000 + d[off + 1] as int * 0x10000 + d[off + 2] as int * 0x100 + d[off + 3] as int) as u32
}

/// A version 4 header whose length field is at least five words and
/// whose packet holds those words.
pub open spec fn ipv4_ok(p: Seq<u8>) -> bool {
    &&& p.len() >= 20
    &&& p[0] >> 4u8 == 4
    &&& (p[0] & 0x0F) >= 5
    &&& p.len() >= (p[0] & 0x0F) as int * 4
}

fn read_be32(d: &[u8], off: usize) -> (r: u32)
    requires
        off + 4 <= d@.len(),
    ensures
        r == be32(d@, off as int),
{
    let b0 = d[off] as u32;
    let b1 = d[off + 1] as u32;
    let b2 = d[off + 2] as u32;
    let b3 = d[off + 3] as u32;
    proof {
        lemma_net_words(0, b0, b1, b2, b3, 0, 0);
    }
    (b0 << 24u32) | (b1 << 16u32) | (b2 << 8u32) | b3
}

/// The source, destination, protocol and total length of an IPv4 packet;
/// `None` for anything that is not a well-formed version 4 header.
pub fn parse_ipv4_header(pkt: &[u8]) -> (r: Option<(u32, u32, u8, u16)>)
    ensures
        !ipv4_ok(pkt@) ==> r is None,
        ipv4_ok(pkt@) ==> r == Some((be32(pkt@, 12), be32(pkt@, 16), pkt@[9], be16(pkt@, 2))),
{
    if pkt.len() < 20 {
        return None;
    }
    let version = pkt[0] >> 4u8;
    if version != 4 {
        return None;
    }
    let ihl = (pkt[0] & 0x0F) as usize;
    if ihl < 5 || pkt.len() < ihl * 4 {
        return None;
    }
    let hi = pkt[2] as u16;
    let lo = pkt[3] as u16;
    proof {
        lemma_net_words(0, 0, 0, 0, 0, hi, lo);
    }
    let total_len = (hi << 8u16) | lo;
    let protocol = pkt[9];
    let src_ip = read_be32(pkt, 12);
    let dst_ip = read_be32(pkt, 16);
    Some((src_ip, dst_ip, protocol, total_len))
}

/// The 12-byte TCP/UDP pseudo header: both addresses, a zero, the
/// protocol and the length, big-endian.
pub fn build_pseudo_header(src: u32, dst: u32, proto: u8, length: u16) -> (hdr: Vec<u8>)
    ensures
        hdr@ == seq![
            (src >> 24u32) as u8, (src >> 16u32) as u8, (src >> 8u32) as u8, src as u8,
            (dst >> 24u32) as u8, (dst >> 16u32) as u8, (dst >> 8u32) as u8, dst as u8,
            0u8, proto, (length >> 8u16) as u8, length as u8,
        ],
{
    let mut hdr: Vec<u8> = Vec::new();
    hdr.push((src >> 24u32) as u8);
    hdr.push((src >> 16u32) as u8);
    hdr.push((src >> 8u32) as u8);
    hdr.push(src as u8);
    hdr.push((dst >> 24u32) as u8);
    hdr.push((dst >> 16u32) as u8);
    hdr.push((dst >> 8u32) as u8);
    hdr.push(dst as u8);
    hdr.push(0);
    hdr.push(proto);
    hdr.push((length >> 8u16) as u8);
    hdr.push(length as u8);
    assert(hdr@ =~= seq![
        (src >> 24u32) as u8, (src >> 16u32) as u8, (src >> 8u32) as u8, src as u8,
        (dst >> 24u32) as u8, (dst >> 16u32) as u8, (dst >> 8u32) as u8, dst as u8,
        0u8, proto, (length >> 8u16) as u8, length as u8,
    ]);
    hdr
}

} // verus!
