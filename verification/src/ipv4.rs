//! IPv4 (RFC 791), minimal: no fragmentation, no options, no routing
//! table.  Packets to the local subnet go directly; everything else goes to
//! the gateway.  Also the Internet checksum shared with ICMP and TCP.

use vstd::prelude::*;
use crate::net::{
    NET_IP_ADDR, NET_GATEWAY, NET_SUBNET_MASK, be16, be32, get_be16, get_be32, be16_bytes, be32_bytes,
    read_be16, read_be32, push_all,
};

verus! {

pub const IP_HEADER_LEN: usize = 20;
pub const IP_MAX_PACKET: usize = 1500;

/// Sum of the first `k` little-endian 16-bit words.
pub open spec fn word_sum(s: Seq<u8>, k: int) -> int
    decreases k,
{
    if k <= 0 {
        0
    } else {
        word_sum(s, k - 1) + s[2 * k - 2] as int + 256 * s[2 * k - 1] as int
    }
}

/// Sum of all little-endian 16-bit words, a trailing odd byte counting as
/// a word with a zero high byte.
pub open spec fn total_sum(s: Seq<u8>) -> int {
    word_sum(s, (s.len() / 2) as int) + if s.len() % 2 == 1 { s[s.len() - 1] as int } else { 0 }
}

/// Two rounds of end-around carry folding.
pub open spec fn ones_fold(sum: int) -> int {
    let s1 = sum / 65536 + sum % 65536;
    s1 + s1 / 65536
}

/// The standard Internet checksum: the ones-complement of the folded sum.
pub open spec fn inet_checksum(s: Seq<u8>) -> u16 {
    (65535 - ones_fold(total_sum(s)) % 65536) as u16
}

proof fn lemma_word_sum_bound(s: Seq<u8>, k: int)
    requires
        0 <= k,
        2 * k <= s.len(),
    ensures
        0 <= word_sum(s, k) <= k * 65535,
    decreases k,
{
    if k > 0 {
        lemma_word_sum_bound(s, k - 1);
    }
}

proof fn lemma_total_sum_bound(s: Seq<u8>)
    requires
        s.len() <= 65535,
    ensures
        0 <= total_sum(s) <= 32767 * 65535 + 255,
{
    lemma_word_sum_bound(s, (s.len() / 2) as int);
    assert((s.len() / 2) as int * 65535 <= 32767 * 65535) by (nonlinear_arith)
        requires
            s.len() <= 65535,
    ;
}

/// The folded sum, reduced to 16 bits, keeps the value modulo 65535 and is
/// zero only for zero.
proof fn lemma_fold(x: int)
    requires
        0 <= x < 0x8000_0000,
    ensures
        0 <= ones_fold(x) % 65536 <= 65535,
        (ones_fold(x) % 65536) % 65535 == x % 65535,
        x > 0 ==> ones_fold(x) % 65536 > 0,
{
    let q1 = x / 65536;
    let r1 = x % 65536;
    let s1 = q1 + r1;
    assert(x == 65536 * q1 + r1 && 0 <= q1 <= 32767 && 0 <= r1 < 65536) by (nonlinear_arith)
        requires
            0 <= x < 0x8000_0000,
            q1 == x / 65536,
            r1 == x % 65536,
    ;
    assert(s1 % 65535 == x % 65535) by (nonlinear_arith)
        requires
            x == 65536 * q1 + r1,
            s1 == q1 + r1,
            0 <= q1,
            0 <= r1,
    {
        assert(x == s1 + 65535 * q1);
    }
    let q2 = s1 / 65536;
    assert(ones_fold(x) == s1 + q2);
    if s1 < 65536 {
        assert(q2 == 0);
        assert(ones_fold(x) % 65536 == s1);
    } else {
        assert(q2 == 1);
        assert(ones_fold(x) % 65536 == s1 - 65535);
        assert((s1 - 65535) % 65535 == s1 % 65535) by (nonlinear_arith)
            requires
                s1 >= 65535,
        ;
    }
}

/// Changing one 16-bit word changes the word sum by the difference.
proof fn lemma_word_sum_update(a: Seq<u8>, b: Seq<u8>, w: int, k: int)
    requires
        a.len() == b.len(),
        0 <= w,
        2 * w + 1 < a.len(),
        forall|i: int| 0 <= i < a.len() && i != 2 * w && i != 2 * w + 1 ==> a[i] == b[i],
        0 <= k,
        2 * k <= a.len(),
    ensures
        word_sum(b, k) == word_sum(a, k) + if k > w {
            (b[2 * w] + 256 * b[2 * w + 1]) - (a[2 * w] + 256 * a[2 * w + 1])
        } else {
            0
        },
    decreases k,
{
    if k > 0 {
        lemma_word_sum_update(a, b, w, k - 1);
    }
}

/// Writing a message's checksum into its (zeroed) checksum field, low
/// byte first, makes the checksum of the whole message zero: the receiver's
/// check passes.
pub proof fn lemma_checksum_inserted(s: Seq<u8>, w: int)
    requires
        0 <= w,
        2 * w + 2 <= s.len() <= 65535,
        s[2 * w] == 0,
        s[2 * w + 1] == 0,
    ensures
        inet_checksum(s.update(2 * w, (inet_checksum(s) % 256) as u8).update(2 * w + 1, (inet_checksum(s) / 256) as u8)) == 0,
{
    let c = inet_checksum(s);
    let t = s.update(2 * w, (c % 256) as u8).update(2 * w + 1, (c / 256) as u8);
    let big_s = total_sum(s);
    lemma_total_sum_bound(s);
    lemma_fold(big_s);
    let g = ones_fold(big_s) % 65536;
    assert(c == 65535 - g);
    let k = (s.len() / 2) as int;
    lemma_word_sum_update(s, t, w, k);
    assert(word_sum(t, k) == word_sum(s, k) + c);
    if s.len() % 2 == 1 {
        assert(t[t.len() - 1] == s[s.len() - 1]);
    }
    let big_t = total_sum(t);
    assert(big_t == big_s + c);
    assert(big_t % 65535 == 0) by (nonlinear_arith)
        requires
            big_t == big_s + 65535 - g,
            g % 65535 == big_s % 65535,
            0 <= g,
            0 <= big_s,
    {
        assert(big_s - g == 65535 * (big_s / 65535 - g / 65535));
    }
    assert(big_t > 0);
    lemma_fold(big_t);
    let gt = ones_fold(big_t) % 65536;
    assert(gt == 65535);
}

/// Compute the Internet checksum of `data`.
pub fn checksum(data: &[u8]) -> (r: u16)
    requires
        data@.len() <= 65535,
    ensures
        r == inet_checksum(data@),
{
    let n = data.len();
    let mut sum: u32 = 0;
    let mut k: usize = 0;
    while k < n / 2
        invariant
            n == data@.len(),
            n <= 65535,
            k <= n / 2,
            sum == word_sum(data@, k as int),
            sum <= k * 65535,
        decreases n / 2 - k,
    {
        let w = (data[2 * k] as u32) + 256 * (data[2 * k + 1] as u32);
        sum = sum + w;
        k = k + 1;
    }
    assert(sum <= 32767 * 65535) by (nonlinear_arith)
        requires
            sum <= k * 65535,
            k <= 32767,
    ;
    if n % 2 == 1 {
        sum = sum + data[n - 1] as u32;
    }
    assert(sum < 0x8000_0000);
    assert((sum >> 16) <= 0x7FFF && (sum & 0xFFFF) <= 0xFFFF) by (bit_vector)
        requires
            sum < 0x8000_0000u32,
    ;
    assert(sum == total_sum(data@));
    let s1 = (sum >> 16) + (sum & 0xFFFF);
    assert(s1 == sum / 65536 + sum % 65536) by (bit_vector)
        requires
            s1 == (sum >> 16) + (sum & 0xFFFF),
            sum < 0x8000_0000,
    ;
    assert((s1 >> 16) <= 1) by (bit_vector)
        requires
            s1 < 0x10000 + 0x8000,
    ;
    let s2 = s1 + (s1 >> 16);
    assert(s2 == s1 + s1 / 65536) by (bit_vector)
        requires
            s2 == s1 + (s1 >> 16),
            s1 < 0x10000 + 0x8000,
    ;
    #[verifier::truncate]
    let r = (!s2) as u16;
    assert(r == (65535 - s2 % 65536) as u16) by (bit_vector)
        requires
            r == (!s2) as u16,
    ;
    r
}

/// The next hop for a destination: itself on the local subnet, otherwise
/// the gateway.
pub open spec fn next_hop_spec(dst_ip: u32) -> u32 {
    if dst_ip & NET_SUBNET_MASK == NET_IP_ADDR & NET_SUBNET_MASK { dst_ip } else { NET_GATEWAY }
}

pub fn next_hop(dst_ip: u32) -> (r: u32)
    ensures
        r == next_hop_spec(dst_ip),
{
    if (dst_ip & NET_SUBNET_MASK) == (NET_IP_ADDR & NET_SUBNET_MASK) {
        dst_ip
    } else {
        NET_GATEWAY
    }
}

/// The 20-byte header with the given checksum bytes: version 4 with a
/// five-word header, no type of service, total length, identification,
/// Don't Fragment, TTL 64, protocol, checksum, our address, destination.
pub open spec fn ip_header(id: u16, total_len: u16, protocol: u8, dst_ip: u32, c0: u8, c1: u8) -> Seq<u8> {
    seq![0x45u8, 0u8] + be16(total_len) + be16(id) + be16(0x4000) + seq![64u8, protocol, c0, c1]
        + be32(NET_IP_ADDR) + be32(dst_ip)
}

/// The packet sent for `payload`: the header whose checksum bytes hold the
/// little-endian checksum of the header with them zeroed, then the payload.
pub open spec fn ip_packet(id: u16, protocol: u8, dst_ip: u32, payload: Seq<u8>) -> Seq<u8> {
    let total = (IP_HEADER_LEN + payload.len()) as u16;
    let c = inet_checksum(ip_header(id, total, protocol, dst_ip, 0, 0));
    ip_header(id, total, protocol, dst_ip, (c % 256) as u8, (c / 256) as u8) + payload
}

/// IPv4 sender state: the identification counter.
pub struct Ipv4 {
    pub id_counter: u16,
}

fn header_bytes(id: u16, total_len: u16, protocol: u8, dst_ip: u32, c0: u8, c1: u8) -> (r: Vec<u8>)
    ensures
        r@ == ip_header(id, total_len, protocol, dst_ip, c0, c1),
{
    let mut h: Vec<u8> = Vec::new();
    h.push(0x45);
    h.push(0);
    push_all(&mut h, &be16_bytes(total_len));
    push_all(&mut h, &be16_bytes(id));
    push_all(&mut h, &be16_bytes(0x4000));
    h.push(64);
    h.push(protocol);
    h.push(c0);
    h.push(c1);
    push_all(&mut h, &be32_bytes(NET_IP_ADDR));
    push_all(&mut h, &be32_bytes(dst_ip));
    assert(h@ =~= ip_header(id, total_len, protocol, dst_ip, c0, c1));
    h
}

impl Ipv4 {
    pub fn new() -> (s: Ipv4)
        ensures
            s.id_counter == 0,
    {
        Ipv4 { id_counter: 0 }
    }

    /// Build the IPv4 packet carrying `payload` to `dst_ip`, using the next
    /// identification number.  `None` (and no change) when it would exceed
    /// 1500 bytes.
    pub fn send(&mut self, dst_ip: u32, protocol: u8, payload: &[u8]) -> (r: Option<Vec<u8>>)
        ensures
            payload@.len() + IP_HEADER_LEN > IP_MAX_PACKET ==> r is None && final(self).id_counter == old(self).id_counter,
            payload@.len() + IP_HEADER_LEN <= IP_MAX_PACKET ==> (r matches Some(p)
                && p@ == ip_packet(old(self).id_counter, protocol, dst_ip, payload@)
                && final(self).id_counter == vstd::wrapping::u16_specs::wrapping_add(old(self).id_counter, 1)),
    {
        if payload.len() > IP_MAX_PACKET - IP_HEADER_LEN {
            return None;
        }
        let id = self.id_counter;
        self.id_counter = self.id_counter.wrapping_add(1);
        let total = (IP_HEADER_LEN + payload.len()) as u16;
        let h0 = header_bytes(id, total, protocol, dst_ip, 0, 0);
        let c = checksum(h0.as_slice());
        let mut p = header_bytes(id, total, protocol, dst_ip, (c % 256) as u8, (c / 256) as u8);
        push_all(&mut p, payload);
        Some(p)
    }
}

/// A received packet addressed to us: protocol, source address, and where
/// the payload lies in the packet.
pub struct IpRx {
    pub protocol: u8,
    pub src_ip: u32,
    pub payload_start: usize,
    pub payload_len: usize,
}

/// Header length in bytes, from the low nibble of the first byte.
pub open spec fn ihl_bytes(b: u8) -> int {
    (b % 16) as int * 4
}

/// Whether a received packet is accepted: long enough, version 4, total
/// length within the data and covering the header, header checksum valid,
/// addressed to us or to the broadcast address.
pub open spec fn ip_accepts(d: Seq<u8>) -> bool {
    &&& d.len() >= IP_HEADER_LEN
    &&& d[0] / 16 == 4
    &&& get_be16(d, 2) <= d.len()
    &&& ihl_bytes(d[0]) <= get_be16(d, 2)
    &&& inet_checksum(d.take(ihl_bytes(d[0]))) == 0
    &&& (get_be32(d, 16) == NET_IP_ADDR || get_be32(d, 16) == 0xFFFF_FFFFu32)
}

/// Validate a received IPv4 packet and locate its payload.
pub fn rx(data: &[u8]) -> (r: Option<IpRx>)
    requires
        data@.len() <= 65535,
    ensures
        !ip_accepts(data@) ==> r is None,
        ip_accepts(data@) ==> (r matches Some(p) && p.protocol == data@[9] && p.src_ip == get_be32(data@, 12)
            && p.payload_start == ihl_bytes(data@[0])
            && p.payload_len == get_be16(data@, 2) - ihl_bytes(data@[0])),
{
    if data.len() < IP_HEADER_LEN {
        return None;
    }
    if data[0] / 16 != 4 {
        return None;
    }
    let hdr_len = ((data[0] % 16) as usize) * 4;
    let total_len = read_be16(data, 2) as usize;
    if data.len() < total_len || total_len < hdr_len {
        return None;
    }
    let hdr = &data[0..hdr_len];
    assert(hdr@ =~= data@.take(ihl_bytes(data@[0])));
    if checksum(hdr) != 0 {
        return None;
    }
    let dst_ip = read_be32(data, 16);
    if dst_ip != NET_IP_ADDR && dst_ip != 0xFFFF_FFFF {
        return None;
    }
    Some(IpRx { protocol: data[9], src_ip: read_be32(data, 12), payload_start: hdr_len, payload_len: total_len - hdr_len })
}

/// A packet built for our own address (or the broadcast address) is
/// accepted on receipt: its header checksum verifies, and the receiver sees
/// the protocol it was sent with, our address as its source, and the
/// payload right after the 20-byte header.
pub proof fn lemma_send_then_rx(id: u16, protocol: u8, dst_ip: u32, payload: Seq<u8>)
    requires
        payload.len() + IP_HEADER_LEN <= IP_MAX_PACKET,
        dst_ip == NET_IP_ADDR || dst_ip == 0xFFFF_FFFFu32,
    ensures
        ip_accepts(ip_packet(id, protocol, dst_ip, payload)),
        ip_packet(id, protocol, dst_ip, payload)[9] == protocol,
        get_be32(ip_packet(id, protocol, dst_ip, payload), 12) == NET_IP_ADDR,
        ihl_bytes(ip_packet(id, protocol, dst_ip, payload)[0]) == IP_HEADER_LEN,
        get_be16(ip_packet(id, protocol, dst_ip, payload), 2) - IP_HEADER_LEN == payload.len(),
        ip_packet(id, protocol, dst_ip, payload).subrange(IP_HEADER_LEN as int, IP_HEADER_LEN + payload.len()) == payload,
{
    let total = (IP_HEADER_LEN + payload.len()) as u16;
    let h0 = ip_header(id, total, protocol, dst_ip, 0, 0);
    let c = inet_checksum(h0);
    let h = ip_header(id, total, protocol, dst_ip, (c % 256) as u8, (c / 256) as u8);
    let p = ip_packet(id, protocol, dst_ip, payload);
    assert(h0.len() == 20);
    assert(h =~= h0.update(10, (c % 256) as u8).update(11, (c / 256) as u8));
    lemma_checksum_inserted(h0, 5);
    assert(p.take(20) =~= h);
    assert(p.subrange(IP_HEADER_LEN as int, IP_HEADER_LEN + payload.len()) =~= payload);
    assert(ihl_bytes(p[0]) == 20);
    assert(get_be16(p, 2) == total);
}

} // verus!
