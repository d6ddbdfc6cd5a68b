//! IPv4 and TCP header parsing and building, and the Internet checksum.
//!
//! Multi-byte fields are big-endian on the wire and host integers after
//! parsing.
use vstd::arithmetic::div_mod::{lemma_fundamental_div_mod, lemma_mod_multiples_vanish};
use vstd::prelude::*;

verus! {

// ============================================================================
// The Internet checksum
// ============================================================================

/// The big-endian 16-bit word made of two bytes.
pub open spec fn be16(hi: u8, lo: u8) -> nat {
    hi as nat * 256 + lo as nat
}

/// The big-endian 32-bit word made of four bytes.
pub open spec fn be32(b0: u8, b1: u8, b2: u8, b3: u8) -> nat {
    b0 as nat * 16777216 + b1 as nat * 65536 + b2 as nat * 256 + b3 as nat
}

/// Sum of the big-endian 16-bit words of `s`; an odd last byte is padded
/// with a zero byte.
pub open spec fn word_sum(s: Seq<u8>) -> nat
    decreases s.len(),
{
    if s.len() == 0 {
        0
    } else if s.len() % 2 == 1 {
        word_sum(s.take(s.len() - 1)) + be16(s[s.len() - 1], 0)
    } else {
        word_sum(s.take(s.len() - 2)) + be16(s[s.len() - 2], s[s.len() - 1])
    }
}

/// Adds the carries above bit 16 back into the low 16 bits until none is left
/// (one's complement addition).
pub open spec fn fold16(x: nat) -> nat
    decreases x,
{
    if x < 65536 {
        x
    } else {
        fold16(x % 65536 + x / 65536)
    }
}

/// The one's complement of the folded sum.
pub open spec fn ones_complement(total: nat) -> int {
    65535 - fold16(total)
}

/// The IPv4 header checksum of `s`.
pub open spec fn ip_checksum(s: Seq<u8>) -> int {
    ones_complement(word_sum(s))
}

/// What the TCP pseudo-header and the segment length add to the sum.
pub open spec fn tcp_pseudo_sum(src: Seq<u8>, dst: Seq<u8>, seg_len: nat) -> nat {
    be16(src[0], src[1]) + be16(src[2], src[3]) + be16(dst[0], dst[1]) + be16(dst[2], dst[3]) + 6
        + (seg_len as u32) as nat
}

/// The TCP checksum of a segment between two addresses.
pub open spec fn tcp_checksum(src: Seq<u8>, dst: Seq<u8>, seg: Seq<u8>) -> int {
    ones_complement(tcp_pseudo_sum(src, dst, seg.len()) + word_sum(seg))
}

proof fn lemma_fold16(x: nat)
    ensures
        fold16(x) <= 65535,
        fold16(x) <= x,
        x > 0 ==> fold16(x) >= 1,
        fold16(x) % 65535 == x % 65535,
    decreases x,
{
    if x >= 65536 {
        let q = x / 65536;
        let r = x % 65536;
        lemma_fundamental_div_mod(x as int, 65536);
        let y = (r + q) as nat;
        assert(x == 65535 * q + y);
        lemma_mod_multiples_vanish(q as int, y as int, 65535);
        lemma_fold16(y);
    }
}

proof fn lemma_word_sum_bound(s: Seq<u8>)
    ensures
        word_sum(s) <= 65535 * s.len(),
    decreases s.len(),
{
    if s.len() % 2 == 1 {
        lemma_word_sum_bound(s.take(s.len() - 1));
    } else if s.len() > 0 {
        lemma_word_sum_bound(s.take(s.len() - 2));
    }
}

proof fn lemma_word_sum_prefix(s: Seq<u8>, i: int)
    requires
        0 <= i <= s.len(),
        i % 2 == 0,
    ensures
        word_sum(s.take(i)) <= word_sum(s),
    decreases s.len(),
{
    if i < s.len() {
        if s.len() % 2 == 1 {
            assert(s.take(s.len() - 1).take(i) =~= s.take(i));
            lemma_word_sum_prefix(s.take(s.len() - 1), i);
        } else {
            assert(s.take(s.len() - 2).take(i) =~= s.take(i));
            lemma_word_sum_prefix(s.take(s.len() - 2), i);
        }
    } else {
        assert(s.take(i) =~= s);
    }
}

/// Replacing the word at an even offset changes the sum by the difference
/// of the words.
proof fn lemma_word_sum_update(s: Seq<u8>, p: int, a: u8, b: u8)
    requires
        0 <= p,
        p + 1 < s.len(),
        p % 2 == 0,
    ensures
        word_sum(s.update(p, a).update(p + 1, b)) + be16(s[p], s[p + 1]) == word_sum(s) + be16(
            a,
            b,
        ),
    decreases s.len(),
{
    let t = s.update(p, a).update(p + 1, b);
    let n = s.len();
    if n % 2 == 1 {
        assert(t.take(n - 1) =~= s.take(n - 1).update(p, a).update(p + 1, b));
        lemma_word_sum_update(s.take(n - 1), p, a, b);
    } else if p == n - 2 {
        assert(t.take(n - 2) =~= s.take(n - 2));
    } else {
        assert(t.take(n - 2) =~= s.take(n - 2).update(p, a).update(p + 1, b));
        lemma_word_sum_update(s.take(n - 2), p, a, b);
    }
}

/// Writing the checksum of a sum into a zero word of the summed bytes makes
/// the checksum of the result zero.
proof fn lemma_checksum_insertion(base: nat, s: Seq<u8>, p: int)
    requires
        0 <= p,
        p + 1 < s.len(),
        p % 2 == 0,
        s[p] == 0,
        s[p + 1] == 0,
    ensures
        ({
            let c = ones_complement(base + word_sum(s));
            let t = s.update(p, (c / 256) as u8).update(p + 1, (c % 256) as u8);
            ones_complement(base + word_sum(t)) == 0
        }),
{
    let total = base + word_sum(s);
    lemma_fold16(total);
    let f = fold16(total);
    let c = 65535 - f;
    let t = s.update(p, (c / 256) as u8).update(p + 1, (c % 256) as u8);
    lemma_word_sum_update(s, p, (c / 256) as u8, (c % 256) as u8);
    assert(be16((c / 256) as u8, (c % 256) as u8) == c);
    let total2 = base + word_sum(t);
    assert(total2 == total + c);
    lemma_fold16(total2);
    assert(total2 == 65535 + (total - f));
    assert(total % 65535 == f % 65535);
    lemma_fundamental_div_mod(total as int, 65535);
    lemma_fundamental_div_mod(f as int, 65535);
    lemma_mod_multiples_vanish(
        (total / 65535 - f / 65535 + 1) as int,
        0,
        65535,
    );
    assert(total2 == 65535 * (total / 65535 - f / 65535 + 1));
    assert(total2 % 65535 == 0);
    assert(fold16(total2) == 65535);
}

/// Adds the big-endian words of `data` to `start`.
fn sum_be_words(data: &[u8], start: u32) -> (sum: u32)
    requires
        start + word_sum(data@) <= u32::MAX,
    ensures
        sum == start + word_sum(data@),
{
    let len = data.len();
    let mut sum = start;
    let mut i: usize = 0;
    while i + 1 < len
        invariant
            len == data@.len(),
            i <= len,
            i % 2 == 0,
            sum == start + word_sum(data@.take(i as int)),
            start + word_sum(data@) <= u32::MAX,
        decreases len - i,
    {
        proof {
            assert(data@.take(i + 2).take(i as int) =~= data@.take(i as int));
            lemma_word_sum_prefix(data@, i + 2);
        }
        let word = (data[i] as u32) * 256 + (data[i + 1] as u32);
        sum = sum + word;
        i = i + 2;
    }
    if i < len {
        proof {
            assert(data@.take(i + 1).take(i as int) =~= data@.take(i as int));
            assert(data@.take(i + 1) =~= data@);
        }
        let word = (data[i] as u32) * 256;
        sum = sum + word;
    } else {
        assert(data@.take(i as int) =~= data@);
    }
    sum
}

/// Folds a 32-bit sum to 16 bits and returns its one's complement.
fn fold_and_complement(sum: u32) -> (r: u16)
    ensures
        r == ones_complement(sum as nat),
{
    let mut s = sum;
    while s >> 16 != 0
        invariant
            fold16(s as nat) == fold16(sum as nat),
        decreases s,
    {
        assert(s >> 16 == s / 65536 && s & 0xFFFF == s % 65536) by (bit_vector);
        s = (s & 0xFFFF) + (s >> 16);
    }
    assert(s >> 16 == 0 ==> s <= 0xFFFF) by (bit_vector);
    assert(s <= 0xFFFF ==> (!s) as u16 == 0xFFFF - s) by (bit_vector);
    !s as u16
}

/// Calculate the IP header checksum.
///
/// The checksum is calculated over the entire IP header.
/// When validating, the result is 0 if the checksum is correct.
pub fn calculate_ip_checksum(data: &[u8]) -> (r: u16)
    requires
        word_sum(data@) <= u32::MAX,
    ensures
        r == ip_checksum(data@),
{
    let sum = sum_be_words(data, 0);
    fold_and_complement(sum)
}

/// Calculate the TCP checksum over the IP pseudo-header (source address,
/// destination address, protocol 6 and the segment length) and the segment.
///
/// The checksum field of the segment should be zero when calculating.
pub fn calculate_tcp_checksum(src_ip: &[u8; 4], dst_ip: &[u8; 4], tcp_segment: &[u8]) -> (r: u16)
    requires
        tcp_pseudo_sum(src_ip@, dst_ip@, tcp_segment@.len()) + word_sum(tcp_segment@) <= u32::MAX,
    ensures
        r == tcp_checksum(src_ip@, dst_ip@, tcp_segment@),
{
    let mut sum: u32 = 0;
    sum = sum + (src_ip[0] as u32) * 256 + (src_ip[1] as u32);
    sum = sum + (src_ip[2] as u32) * 256 + (src_ip[3] as u32);
    sum = sum + (dst_ip[0] as u32) * 256 + (dst_ip[1] as u32);
    sum = sum + (dst_ip[2] as u32) * 256 + (dst_ip[3] as u32);
    sum = sum + 6;
    sum = sum + tcp_segment.len() as u32;
    let sum = sum_be_words(tcp_segment, sum);
    fold_and_complement(sum)
}

// ============================================================================
// IP header
// ============================================================================

/// IPv4 header (RFC 791), all fields in host byte order.
#[derive(Debug, Clone)]
pub struct IpHeader {
    /// IP version (4 for IPv4).
    pub version: u8,
    /// Internet header length in 32-bit words (usually 5).
    pub ihl: u8,
    /// Header length in bytes (`ihl * 4`).
    pub header_len: u8,
    /// Type of service.
    pub tos: u8,
    /// Length of header and data.
    pub total_len: u16,
    /// Fragment identification.
    pub identification: u16,
    /// The three flag bits (reserved, DF, MF).
    pub flags: u8,
    /// Fragment offset (13 bits).
    pub fragment_offset: u16,
    /// Time to live.
    pub ttl: u8,
    /// Protocol (6 = TCP, 17 = UDP, 1 = ICMP).
    pub protocol: u8,
    /// Header checksum.
    pub checksum: u16,
    /// Source address.
    pub src_addr: [u8; 4],
    /// Destination address.
    pub dst_addr: [u8; 4],
}

/// `h` holds the fields that the first 20 bytes of `d` encode.
pub open spec fn ip_header_of(d: Seq<u8>, h: IpHeader) -> bool {
    &&& h.version == d[0] / 16
    &&& h.ihl == d[0] % 16
    &&& h.header_len == (d[0] % 16) * 4
    &&& h.tos == d[1]
    &&& h.total_len == be16(d[2], d[3])
    &&& h.identification == be16(d[4], d[5])
    &&& h.flags == d[6] / 32
    &&& h.fragment_offset == be16(d[6] % 32, d[7])
    &&& h.ttl == d[8]
    &&& h.protocol == d[9]
    &&& h.checksum == be16(d[10], d[11])
    &&& h.src_addr@ == d.subrange(12, 16)
    &&& h.dst_addr@ == d.subrange(16, 20)
}

/// The 20 header bytes of `h` with a zero checksum field.
pub open spec fn ip_header_bytes_unchecked(h: IpHeader) -> Seq<u8> {
    let flags_frag = ((h.flags % 8) * 8192 + h.fragment_offset % 8192) as nat;
    seq![
        (h.version << 4u8) | h.ihl,
        h.tos,
        (h.total_len / 256) as u8,
        (h.total_len % 256) as u8,
        (h.identification / 256) as u8,
        (h.identification % 256) as u8,
        (flags_frag / 256) as u8,
        (flags_frag % 256) as u8,
        h.ttl,
        h.protocol,
        0u8,
        0u8,
    ] + h.src_addr@ + h.dst_addr@
}

/// The 20 header bytes that `build` writes for `h`, checksum included.
pub open spec fn ip_header_bytes(h: IpHeader) -> Seq<u8> {
    let raw = ip_header_bytes_unchecked(h);
    let c = ip_checksum(raw);
    raw.update(10, (c / 256) as u8).update(11, (c % 256) as u8)
}

proof fn lemma_ip_unchecked_sum(h: IpHeader)
    ensures
        ip_header_bytes_unchecked(h).len() == 20,
        word_sum(ip_header_bytes_unchecked(h)) <= u32::MAX,
{
    lemma_word_sum_bound(ip_header_bytes_unchecked(h));
}

impl IpHeader {
    /// Parse an IP header from raw bytes.
    ///
    /// Returns an IpHeader with all fields in host byte order.
    pub fn parse(data: &[u8]) -> (r: Result<Self, &'static str>)
        ensures
            data@.len() < 20 ==> r == Err::<Self, &'static str>("Packet too short for IP header"),
            data@.len() >= 20 && data@[0] / 16 != 4 ==> r == Err::<Self, &'static str>("Not IPv4"),
            data@.len() >= 20 && data@[0] / 16 == 4 && data@.len() < (data@[0] % 16) * 4 ==> r
                == Err::<Self, &'static str>("Packet shorter than indicated header length"),
            data@.len() >= 20 && data@[0] / 16 == 4 && data@.len() >= (data@[0] % 16) * 4 ==> (
            r matches Ok(h) && ip_header_of(data@, h)),
    {
        if data.len() < 20 {
            return Err("Packet too short for IP header");
        }
        let b0 = data[0];
        let version = b0 >> 4;
        let ihl = b0 & 0x0F;
        assert(b0 >> 4 == b0 / 16 && b0 & 0x0F == b0 % 16) by (bit_vector);
        let header_len = ihl * 4;
        if version != 4 {
            return Err("Not IPv4");
        }
        if data.len() < header_len as usize {
            return Err("Packet shorter than indicated header length");
        }
        let b6 = data[6];
        assert((b6 >> 5) & 0x07 == b6 / 32 && b6 & 0x1F == b6 % 32) by (bit_vector);
        let h = IpHeader {
            version,
            ihl,
            header_len,
            tos: data[1],
            total_len: (data[2] as u16) * 256 + (data[3] as u16),
            identification: (data[4] as u16) * 256 + (data[5] as u16),
            flags: (b6 >> 5) & 0x07,
            fragment_offset: ((b6 & 0x1F) as u16) * 256 + (data[7] as u16),
            ttl: data[8],
            protocol: data[9],
            checksum: (data[10] as u16) * 256 + (data[11] as u16),
            src_addr: [data[12], data[13], data[14], data[15]],
            dst_addr: [data[16], data[17], data[18], data[19]],
        };
        assert(h.src_addr@ =~= data@.subrange(12, 16));
        assert(h.dst_addr@ =~= data@.subrange(16, 20));
        Ok(h)
    }

    /// Build an IP header into the first 20 bytes of `buffer`.
    ///
    /// The checksum is calculated and written; the `checksum` field of
    /// `self` is not used.
    pub fn build(&self, buffer: &mut [u8]) -> (r: Result<usize, &'static str>)
        ensures
            old(buffer)@.len() < 20 ==> r == Err::<usize, &'static str>(
                "Buffer too small for IP header",
            ) && final(buffer)@ == old(buffer)@,
            old(buffer)@.len() >= 20 ==> r == Ok::<usize, &'static str>(20) && final(buffer)@
                == ip_header_bytes(*self) + old(buffer)@.skip(20),
    {
        if buffer.len() < 20 {
            return Err("Buffer too small for IP header");
        }
        buffer[0] = (self.version << 4) | self.ihl;
        buffer[1] = self.tos;
        buffer[2] = (self.total_len / 256) as u8;
        buffer[3] = (self.total_len % 256) as u8;
        buffer[4] = (self.identification / 256) as u8;
        buffer[5] = (self.identification % 256) as u8;
        let flags = self.flags;
        let frag = self.fragment_offset;
        let flags_frag: u16 = ((flags as u16) << 13) | (frag & 0x1FFF);
        assert(((flags as u16) << 13) | (frag & 0x1FFF) == (flags % 8) as u16 * 8192 + frag % 8192)
            by (bit_vector);
        buffer[6] = (flags_frag / 256) as u8;
        buffer[7] = (flags_frag % 256) as u8;
        buffer[8] = self.ttl;
        buffer[9] = self.protocol;
        buffer[10] = 0;
        buffer[11] = 0;
        buffer[12] = self.src_addr[0];
        buffer[13] = self.src_addr[1];
        buffer[14] = self.src_addr[2];
        buffer[15] = self.src_addr[3];
        buffer[16] = self.dst_addr[0];
        buffer[17] = self.dst_addr[1];
        buffer[18] = self.dst_addr[2];
        buffer[19] = self.dst_addr[3];
        let ghost raw = ip_header_bytes_unchecked(*self);
        assert(buffer@.take(20) =~= raw);
        proof {
            lemma_ip_unchecked_sum(*self);
        }
        let checksum = calculate_ip_checksum(&buffer[0..20]);
        buffer[10] = (checksum / 256) as u8;
        buffer[11] = (checksum % 256) as u8;
        assert(final(buffer)@ =~= ip_header_bytes(*self) + old(buffer)@.skip(20));
        Ok(20)
    }

    /// Validate the IP header checksum over the first `header_len` bytes of
    /// `data`.
    pub fn validate_checksum(&self, data: &[u8]) -> (r: bool)
        requires
            self.header_len <= data@.len(),
        ensures
            r == (ip_checksum(data@.take(self.header_len as int)) == 0),
    {
        let n = self.header_len as usize;
        let header = &data[0..n];
        assert(header@ =~= data@.take(n as int));
        proof {
            lemma_word_sum_bound(header@);
        }
        calculate_ip_checksum(header) == 0
    }
}

// ============================================================================
// TCP header
// ============================================================================

/// TCP header (RFC 793), all fields in host byte order.
#[derive(Debug, Clone)]
pub struct TcpHeader {
    /// Source port.
    pub src_port: u16,
    /// Destination port.
    pub dst_port: u16,
    /// Sequence number.
    pub seq_num: u32,
    /// Acknowledgment number.
    pub ack_num: u32,
    /// Header length in bytes (`data_offset_raw * 4`).
    pub data_offset: u8,
    /// Header length in 32-bit words (usually 5).
    pub data_offset_raw: u8,
    /// Control flags (URG, ACK, PSH, RST, SYN, FIN).
    pub flags: u8,
    /// Window size.
    pub window: u16,
    /// Checksum.
    pub checksum: u16,
    /// Urgent pointer.
    pub urgent_ptr: u16,
}

pub const TCP_FIN: u8 = 0x01;

pub const TCP_SYN: u8 = 0x02;

pub const TCP_RST: u8 = 0x04;

pub const TCP_PSH: u8 = 0x08;

pub const TCP_ACK: u8 = 0x10;

pub const TCP_URG: u8 = 0x20;

/// `h` holds the fields that the first 20 bytes of `d` encode.
pub open spec fn tcp_header_of(d: Seq<u8>, h: TcpHeader) -> bool {
    &&& h.src_port == be16(d[0], d[1])
    &&& h.dst_port == be16(d[2], d[3])
    &&& h.seq_num == be32(d[4], d[5], d[6], d[7])
    &&& h.ack_num == be32(d[8], d[9], d[10], d[11])
    &&& h.data_offset_raw == d[12] / 16
    &&& h.data_offset == (d[12] / 16) * 4
    &&& h.flags == d[13] % 64
    &&& h.window == be16(d[14], d[15])
    &&& h.checksum == be16(d[16], d[17])
    &&& h.urgent_ptr == be16(d[18], d[19])
}

/// The 20 header bytes that `build` writes for `h`.
pub open spec fn tcp_header_bytes(h: TcpHeader) -> Seq<u8> {
    seq![
        (h.src_port / 256) as u8,
        (h.src_port % 256) as u8,
        (h.dst_port / 256) as u8,
        (h.dst_port % 256) as u8,
        (h.seq_num / 16777216) as u8,
        ((h.seq_num / 65536) % 256) as u8,
        ((h.seq_num / 256) % 256) as u8,
        (h.seq_num % 256) as u8,
        (h.ack_num / 16777216) as u8,
        ((h.ack_num / 65536) % 256) as u8,
        ((h.ack_num / 256) % 256) as u8,
        (h.ack_num % 256) as u8,
        h.data_offset_raw << 4u8,
        h.flags % 64,
        (h.window / 256) as u8,
        (h.window % 256) as u8,
        (h.checksum / 256) as u8,
        (h.checksum % 256) as u8,
        (h.urgent_ptr / 256) as u8,
        (h.urgent_ptr % 256) as u8,
    ]
}

impl TcpHeader {
    /// Parse a TCP header from raw bytes.
    ///
    /// Returns a TcpHeader with all fields in host byte order.
    pub fn parse(data: &[u8]) -> (r: Result<Self, &'static str>)
        ensures
            data@.len() < 20 ==> r == Err::<Self, &'static str>("Packet too short for TCP header"),
            data@.len() >= 20 && data@.len() < (data@[12] / 16) * 4 ==> r == Err::<
                Self,
                &'static str,
            >("Packet shorter than indicated TCP header length"),
            data@.len() >= 20 && data@.len() >= (data@[12] / 16) * 4 ==> (r matches Ok(h)
                && tcp_header_of(data@, h)),
    {
        if data.len() < 20 {
            return Err("Packet too short for TCP header");
        }
        let b12 = data[12];
        let b13 = data[13];
        assert(b12 >> 4 == b12 / 16 && b13 & 0x3F == b13 % 64) by (bit_vector);
        let data_offset_raw = b12 >> 4;
        let data_offset = data_offset_raw * 4;
        if data.len() < data_offset as usize {
            return Err("Packet shorter than indicated TCP header length");
        }
        Ok(TcpHeader {
            src_port: (data[0] as u16) * 256 + (data[1] as u16),
            dst_port: (data[2] as u16) * 256 + (data[3] as u16),
            seq_num: (data[4] as u32) * 16777216 + (data[5] as u32) * 65536 + (data[6] as u32) * 256
                + (data[7] as u32),
            ack_num: (data[8] as u32) * 16777216 + (data[9] as u32) * 65536 + (data[10] as u32)
                * 256 + (data[11] as u32),
            data_offset_raw,
            data_offset,
            flags: b13 & 0x3F,
            window: (data[14] as u16) * 256 + (data[15] as u16),
            checksum: (data[16] as u16) * 256 + (data[17] as u16),
            urgent_ptr: (data[18] as u16) * 256 + (data[19] as u16),
        })
    }

    /// Build a TCP header into the first 20 bytes of `buffer`.
    ///
    /// The checksum is not calculated (it needs the IP pseudo-header): the
    /// `checksum` field is written as it is. Returns `data_offset`.
    pub fn build(&self, buffer: &mut [u8]) -> (r: Result<usize, &'static str>)
        ensures
            old(buffer)@.len() < 20 ==> r == Err::<usize, &'static str>(
                "Buffer too small for TCP header",
            ) && final(buffer)@ == old(buffer)@,
            old(buffer)@.len() >= 20 ==> r == Ok::<usize, &'static str>(self.data_offset as usize)
                && final(buffer)@ == tcp_header_bytes(*self) + old(buffer)@.skip(20),
    {
        if buffer.len() < 20 {
            return Err("Buffer too small for TCP header");
        }
        buffer[0] = (self.src_port / 256) as u8;
        buffer[1] = (self.src_port % 256) as u8;
        buffer[2] = (self.dst_port / 256) as u8;
        buffer[3] = (self.dst_port % 256) as u8;
        buffer[4] = (self.seq_num / 16777216) as u8;
        buffer[5] = ((self.seq_num / 65536) % 256) as u8;
        buffer[6] = ((self.seq_num / 256) % 256) as u8;
        buffer[7] = (self.seq_num % 256) as u8;
        buffer[8] = (self.ack_num / 16777216) as u8;
        buffer[9] = ((self.ack_num / 65536) % 256) as u8;
        buffer[10] = ((self.ack_num / 256) % 256) as u8;
        buffer[11] = (self.ack_num % 256) as u8;
        buffer[12] = self.data_offset_raw << 4;
        let flags = self.flags;
        assert(flags & 0x3F == flags % 64) by (bit_vector);
        buffer[13] = flags & 0x3F;
        buffer[14] = (self.window / 256) as u8;
        buffer[15] = (self.window % 256) as u8;
        buffer[16] = (self.checksum / 256) as u8;
        buffer[17] = (self.checksum % 256) as u8;
        buffer[18] = (self.urgent_ptr / 256) as u8;
        buffer[19] = (self.urgent_ptr % 256) as u8;
        assert(final(buffer)@ =~= tcp_header_bytes(*self) + old(buffer)@.skip(20));
        Ok(self.data_offset as usize)
    }

    /// SYN flag.
    pub fn syn(&self) -> (r: bool)
        ensures
            r == (self.flags & TCP_SYN != 0),
    {
        self.flags & TCP_SYN != 0
    }

    /// ACK flag.
    pub fn ack(&self) -> (r: bool)
        ensures
            r == (self.flags & TCP_ACK != 0),
    {
        self.flags & TCP_ACK != 0
    }

    /// FIN flag.
    pub fn fin(&self) -> (r: bool)
        ensures
            r == (self.flags & TCP_FIN != 0),
    {
        self.flags & TCP_FIN != 0
    }

    /// RST flag.
    pub fn rst(&self) -> (r: bool)
        ensures
            r == (self.flags & TCP_RST != 0),
    {
        self.flags & TCP_RST != 0
    }

    /// PSH flag.
    pub fn psh(&self) -> (r: bool)
        ensures
            r == (self.flags & TCP_PSH != 0),
    {
        self.flags & TCP_PSH != 0
    }

    /// URG flag.
    pub fn urg(&self) -> (r: bool)
        ensures
            r == (self.flags & TCP_URG != 0),
    {
        self.flags & TCP_URG != 0
    }
}

// ============================================================================
// Laws
// ============================================================================

/// The header that `IpHeader::build` writes carries a valid checksum:
/// validating it gives zero.
pub proof fn lemma_ip_build_validates(h: IpHeader)
    ensures
        ip_checksum(ip_header_bytes(h)) == 0,
{
    lemma_checksum_insertion(0, ip_header_bytes_unchecked(h), 10);
}

/// Parsing what `IpHeader::build` wrote gives the header back, with the
/// computed checksum, for every IPv4 header whose fields fit their bit widths,
/// as long as the bytes hold the header length that the header announces.
pub proof fn lemma_ip_build_parse_roundtrip(h: IpHeader, rest: Seq<u8>)
    requires
        h.version == 4,
        h.ihl < 16,
        h.header_len == h.ihl * 4,
        20 + rest.len() >= h.header_len,
        h.flags < 8,
        h.fragment_offset < 8192,
    ensures
        ({
            let d = ip_header_bytes(h) + rest;
            &&& d[0] / 16 == 4
            &&& d.len() >= (d[0] % 16) * 4
            &&& ip_header_of(
                d,
                IpHeader { checksum: ip_checksum(ip_header_bytes_unchecked(h)) as u16, ..h },
            )
        }),
{
    let raw = ip_header_bytes_unchecked(h);
    let c = ip_checksum(raw);
    lemma_fold16(word_sum(raw));
    let d = ip_header_bytes(h) + rest;
    let v = h.version;
    let i = h.ihl;
    assert(v == 4 && i < 16 ==> ((v << 4u8) | i) / 16 == 4 && ((v << 4u8) | i) % 16 == i)
        by (bit_vector);
    let f = h.flags;
    let o = h.fragment_offset;
    let ff = (f % 8) * 8192 + o % 8192;
    assert(((ff / 256) as u8) / 32 == f && be16((((ff / 256) as u8) % 32) as u8, (ff % 256) as u8)
        == o);
    assert(d.subrange(12, 16) =~= h.src_addr@);
    assert(d.subrange(16, 20) =~= h.dst_addr@);
}

/// Parsing what `TcpHeader::build` wrote gives the header back, for every
/// header whose fields fit their bit widths, as long as the bytes hold the
/// header length that the header announces.
pub proof fn lemma_tcp_build_parse_roundtrip(h: TcpHeader, rest: Seq<u8>)
    requires
        h.data_offset_raw < 16,
        h.data_offset == h.data_offset_raw * 4,
        h.flags < 64,
        20 + rest.len() >= h.data_offset,
    ensures
        ({
            let d = tcp_header_bytes(h) + rest;
            &&& d.len() >= (d[12] / 16) * 4
            &&& tcp_header_of(d, h)
        }),
{
    let d = tcp_header_bytes(h) + rest;
    let r = h.data_offset_raw;
    assert(r < 16 ==> (r << 4u8) / 16 == r) by (bit_vector);
    let s = h.seq_num;
    let a = h.ack_num;
    assert(be32(
        (s / 16777216) as u8,
        ((s / 65536) % 256) as u8,
        ((s / 256) % 256) as u8,
        (s % 256) as u8,
    ) == s);
    assert(be32(
        (a / 16777216) as u8,
        ((a / 65536) % 256) as u8,
        ((a / 256) % 256) as u8,
        (a % 256) as u8,
    ) == a);
}

/// Writing the TCP checksum, computed with a zero checksum field, into the
/// checksum field makes the checksum of the segment zero.
pub proof fn lemma_tcp_checksum_validates(src: Seq<u8>, dst: Seq<u8>, seg: Seq<u8>)
    requires
        seg.len() >= 18,
        seg[16] == 0,
        seg[17] == 0,
    ensures
        ({
            let c = tcp_checksum(src, dst, seg);
            tcp_checksum(src, dst, seg.update(16, (c / 256) as u8).update(17, (c % 256) as u8))
                == 0
        }),
{
    lemma_checksum_insertion(tcp_pseudo_sum(src, dst, seg.len()), seg, 16);
}

/// The sum of a concatenation whose first part has even length is the sum
/// of the sums of the parts.
proof fn lemma_word_sum_concat(a: Seq<u8>, b: Seq<u8>)
    requires
        a.len() % 2 == 0,
    ensures
        word_sum(a + b) == word_sum(a) + word_sum(b),
    decreases b.len(),
{
    let ab = a + b;
    let n = ab.len();
    if b.len() == 0 {
        assert(ab =~= a);
    } else if b.len() % 2 == 1 {
        assert(ab.take(n - 1) =~= a + b.take(b.len() - 1));
        lemma_word_sum_concat(a, b.take(b.len() - 1));
    } else {
        assert(ab.take(n - 2) =~= a + b.take(b.len() - 2));
        lemma_word_sum_concat(a, b.take(b.len() - 2));
    }
}

proof fn lemma_word_sum_pair(x: u8, y: u8)
    ensures
        word_sum(seq![x, y]) == be16(x, y),
{
    let s = seq![x, y];
    assert(s.take(0) =~= Seq::<u8>::empty());
    assert(word_sum(s.take(0)) == 0);
    assert(s[0] == x && s[1] == y);
}

proof fn lemma_word_sum_quad(s: Seq<u8>)
    requires
        s.len() == 4,
    ensures
        word_sum(s) == be16(s[0], s[1]) + be16(s[2], s[3]),
{
    assert(s =~= seq![s[0], s[1]] + seq![s[2], s[3]]);
    lemma_word_sum_concat(seq![s[0], s[1]], seq![s[2], s[3]]);
    lemma_word_sum_pair(s[0], s[1]);
    lemma_word_sum_pair(s[2], s[3]);
}

proof fn lemma_word_sum_half_bound(s: Seq<u8>)
    ensures
        word_sum(s) <= 65535 * ((s.len() + 1) / 2),
    decreases s.len(),
{
    if s.len() % 2 == 1 {
        lemma_word_sum_half_bound(s.take(s.len() - 1));
    } else if s.len() > 0 {
        lemma_word_sum_half_bound(s.take(s.len() - 2));
    }
}

/// The checksum sum of up to 131072 bytes fits in 32 bits, so
/// `calculate_ip_checksum` takes any such data.
pub proof fn lemma_word_sum_fits(s: Seq<u8>)
    requires
        s.len() <= 131072,
    ensures
        word_sum(s) <= u32::MAX,
{
    lemma_word_sum_half_bound(s);
    assert(65535 * ((s.len() + 1) / 2) <= 65535 * 65536) by (nonlinear_arith)
        requires
            s.len() <= 131072,
    ;
}

/// Appending the checksum of even-length data, high byte first, gives data
/// whose checksum is zero: this is what validation checks.
pub proof fn lemma_ip_checksum_appended_validates(data: Seq<u8>)
    requires
        data.len() % 2 == 0,
    ensures
        ({
            let c = ip_checksum(data);
            ip_checksum(data + seq![(c / 256) as u8, (c % 256) as u8]) == 0
        }),
{
    let z = data + seq![0u8, 0u8];
    lemma_word_sum_concat(data, seq![0u8, 0u8]);
    lemma_word_sum_pair(0, 0);
    let p = data.len() as int;
    lemma_checksum_insertion(0, z, p);
    let c = ip_checksum(data);
    assert(z.update(p, (c / 256) as u8).update(p + 1, (c % 256) as u8) =~= data + seq![
        (c / 256) as u8,
        (c % 256) as u8,
    ]);
}

/// An odd last byte counts as if a zero byte followed it.
pub proof fn lemma_ip_checksum_pads_odd_byte(data: Seq<u8>)
    requires
        data.len() % 2 == 1,
    ensures
        ip_checksum(data) == ip_checksum(data.push(0)),
{
    let d = data.push(0);
    assert(d.take(d.len() - 2) =~= data.take(data.len() - 1));
}

/// The TCP checksum is the IPv4 checksum of the pseudo-header (source,
/// destination, a zero byte, protocol 6, the segment length) followed by the
/// segment.
pub proof fn lemma_tcp_checksum_is_ip_checksum(src: Seq<u8>, dst: Seq<u8>, seg: Seq<u8>)
    requires
        src.len() == 4,
        dst.len() == 4,
        seg.len() <= 65535,
    ensures
        tcp_checksum(src, dst, seg) == ip_checksum(
            src + dst + seq![0u8, 6u8] + seq![(seg.len() / 256) as u8, (seg.len() % 256) as u8]
                + seg,
        ),
{
    let len = seg.len();
    let l = seq![(len / 256) as u8, (len % 256) as u8];
    let sd = src + dst;
    let w = sd + seq![0u8, 6u8];
    let h = w + l;
    lemma_word_sum_quad(src);
    lemma_word_sum_quad(dst);
    lemma_word_sum_concat(src, dst);
    lemma_word_sum_concat(sd, seq![0u8, 6u8]);
    lemma_word_sum_pair(0, 6);
    lemma_word_sum_concat(w, l);
    lemma_word_sum_pair((len / 256) as u8, (len % 256) as u8);
    lemma_word_sum_concat(h, seg);
    assert(be16((len / 256) as u8, (len % 256) as u8) == len);
    assert((len as u32) as nat == len);
}

/// Parsed TCP fields are read from the wire big-endian, most significant
/// byte first, at their fixed offsets.
pub proof fn lemma_tcp_parse_big_endian(d: Seq<u8>, h: TcpHeader)
    requires
        d.len() >= 20,
        tcp_header_of(d, h),
    ensures
        h.src_port == d[0] as int * 256 + d[1] as int,
        h.dst_port == d[2] as int * 256 + d[3] as int,
        h.seq_num == ((d[4] as int * 256 + d[5] as int) * 256 + d[6] as int) * 256 + d[7] as int,
        h.ack_num == ((d[8] as int * 256 + d[9] as int) * 256 + d[10] as int) * 256 + d[11] as int,
        h.data_offset_raw == d[12] as int / 16,
        h.flags == d[13] as int % 64,
        h.window == d[14] as int * 256 + d[15] as int,
        h.checksum == d[16] as int * 256 + d[17] as int,
        h.urgent_ptr == d[18] as int * 256 + d[19] as int,
{
}

/// `TcpHeader::build` writes each field big-endian, most significant byte
/// first, at its fixed offset.
pub proof fn lemma_tcp_build_big_endian(h: TcpHeader)
    requires
        h.data_offset_raw < 16,
        h.flags < 64,
    ensures
        ({
            let b = tcp_header_bytes(h);
            &&& b.len() == 20
            &&& b[0] as int * 256 + b[1] as int == h.src_port
            &&& b[2] as int * 256 + b[3] as int == h.dst_port
            &&& ((b[4] as int * 256 + b[5] as int) * 256 + b[6] as int) * 256 + b[7] as int
                == h.seq_num
            &&& ((b[8] as int * 256 + b[9] as int) * 256 + b[10] as int) * 256 + b[11] as int
                == h.ack_num
            &&& b[12] as int / 16 == h.data_offset_raw
            &&& b[13] == h.flags
            &&& b[14] as int * 256 + b[15] as int == h.window
            &&& b[16] as int * 256 + b[17] as int == h.checksum
            &&& b[18] as int * 256 + b[19] as int == h.urgent_ptr
        }),
{
    let r = h.data_offset_raw;
    assert(r < 16 ==> (r << 4u8) / 16 == r) by (bit_vector);
    let q = h.seq_num;
    let a = h.ack_num;
    assert(((q / 16777216) as u8 as int * 256 + ((q / 65536) % 256) as u8 as int) * 256 + ((q
        / 256) % 256) as u8 as int == q / 256);
    assert(((a / 16777216) as u8 as int * 256 + ((a / 65536) % 256) as u8 as int) * 256 + ((a
        / 256) % 256) as u8 as int == a / 256);
}

/// Parsed IPv4 fields are read from the wire big-endian, most significant
/// byte first, at their fixed offsets; version and header length share the
/// first byte, flags and fragment offset bytes 6 and 7.
pub proof fn lemma_ip_parse_big_endian(d: Seq<u8>, h: IpHeader)
    requires
        d.len() >= 20,
        ip_header_of(d, h),
    ensures
        h.version == d[0] as int / 16,
        h.ihl == d[0] as int % 16,
        h.total_len == d[2] as int * 256 + d[3] as int,
        h.identification == d[4] as int * 256 + d[5] as int,
        h.flags == d[6] as int / 32,
        h.fragment_offset == (d[6] as int % 32) * 256 + d[7] as int,
        h.checksum == d[10] as int * 256 + d[11] as int,
        forall|i: int| 0 <= i < 4 ==> h.src_addr@[i] == d[12 + i] && h.dst_addr@[i] == d[16 + i],
{
}

/// `IpHeader::build` writes each field big-endian, most significant byte
/// first, at its fixed offset, with the checksum at bytes 10 and 11.
pub proof fn lemma_ip_build_big_endian(h: IpHeader)
    requires
        h.flags < 8,
        h.fragment_offset < 8192,
    ensures
        ({
            let b = ip_header_bytes(h);
            &&& b.len() == 20
            &&& b[2] as int * 256 + b[3] as int == h.total_len
            &&& b[4] as int * 256 + b[5] as int == h.identification
            &&& b[6] as int / 32 == h.flags
            &&& (b[6] as int % 32) * 256 + b[7] as int == h.fragment_offset
            &&& b[10] as int * 256 + b[11] as int == ip_checksum(ip_header_bytes_unchecked(h))
            &&& forall|i: int| 0 <= i < 4 ==> b[12 + i] == h.src_addr@[i] && b[16 + i] == h.dst_addr@[i]
        }),
{
    lemma_fold16(word_sum(ip_header_bytes_unchecked(h)));
    let f = h.flags;
    let o = h.fragment_offset;
    let ff = (f % 8) * 8192 + o % 8192;
    assert(((ff / 256) as u8) / 32 == f && (((ff / 256) as u8) % 32) as int * 256 + (ff
        % 256) as u8 as int == o);
}

} // verus!
