//! Shared network definitions: addresses, byte-order conversion, big-endian
//! field access, Ethernet framing and dotted-quad formatting.

use vstd::prelude::*;

verus! {

// Network configuration (QEMU user-mode networking defaults)
pub const NET_IP_ADDR: u32 = 0x0A00020F;
pub const NET_GATEWAY: u32 = 0x0A000202;
pub const NET_SUBNET_MASK: u32 = 0xFFFFFF00;

// EtherType constants
pub const ETH_TYPE_IP: u16 = 0x0800;
pub const ETH_TYPE_ARP: u16 = 0x0806;

// IP protocol numbers
pub const IP_PROTO_ICMP: u8 = 1;
pub const IP_PROTO_TCP: u8 = 6;
pub const IP_PROTO_UDP: u8 = 17;

/// Largest Ethernet frame handed to the NIC.
pub const ETH_MAX_FRAME: usize = 1518;
pub const ETH_HEADER_LEN: usize = 14;

/// Ethernet header (14 bytes on the wire; the type is big-endian there).
pub struct EthHeader {
    pub dst: [u8; 6],
    pub src: [u8; 6],
    pub ethertype: u16,
}

/// The 16-bit value with its two bytes exchanged.
pub open spec fn swap16(v: u16) -> u16 {
    ((v % 256) * 256 + v / 256) as u16
}

/// The 32-bit value with its byte order reversed.
pub open spec fn swap32(v: u32) -> u32 {
    ((v % 256) * 0x1000000 + ((v / 256) % 256) * 0x10000 + ((v / 0x10000) % 256) * 256 + v / 0x1000000) as u32
}

/// Host to network order, 16 bits (x86 is little-endian).
pub fn htons(v: u16) -> (r: u16)
    ensures
        r == swap16(v),
{
    let r = (v >> 8) | (v << 8);
    assert(r == ((v % 256) * 256 + v / 256) as u16) by (bit_vector)
        requires
            r == (v >> 8) | (v << 8),
    ;
    r
}

/// Network to host order, 16 bits.
pub fn ntohs(v: u16) -> (r: u16)
    ensures
        r == swap16(v),
{
    htons(v)
}

/// Host to network order, 32 bits.
pub fn htonl(v: u32) -> (r: u32)
    ensures
        r == swap32(v),
{
    let r = ((v >> 24) & 0xFF) | ((v >> 8) & 0xFF00) | ((v << 8) & 0xFF_0000) | ((v << 24) & 0xFF00_0000);
    assert(r == ((v % 256) * 0x1000000 + ((v / 256) % 256) * 0x10000 + ((v / 0x10000) % 256) * 256 + v / 0x1000000) as u32) by (bit_vector)
        requires
            r == ((v >> 24) & 0xFF) | ((v >> 8) & 0xFF00) | ((v << 8) & 0xFF_0000) | ((v << 24) & 0xFF00_0000),
    ;
    r
}

/// Network to host order, 32 bits.
pub fn ntohl(v: u32) -> (r: u32)
    ensures
        r == swap32(v),
{
    htonl(v)
}

/// Converting twice gives the value back (16 bits).
pub proof fn lemma_swap16_involution(v: u16)
    ensures
        swap16(swap16(v)) == v,
{
}

/// Converting twice gives the value back (32 bits).
pub proof fn lemma_swap32_involution(v: u32)
    by (bit_vector)
    ensures
        swap32(swap32(v)) == v,
{
}

/// Get the kernel's IP address.
pub fn get_ip() -> (r: u32)
    ensures
        r == NET_IP_ADDR,
{
    NET_IP_ADDR
}

/// Set the kernel's IP address: the configuration is fixed, so nothing
/// changes.
pub fn set_ip(_ip: u32) {
}

/// Get the gateway address.
pub fn get_gateway() -> (r: u32)
    ensures
        r == NET_GATEWAY,
{
    NET_GATEWAY
}

/// Set the gateway address: the configuration is fixed, so nothing changes.
pub fn set_gateway(_gw: u32) {
}

/// Get the subnet mask.
pub fn get_subnet() -> (r: u32)
    ensures
        r == NET_SUBNET_MASK,
{
    NET_SUBNET_MASK
}

// ---- Big-endian fields ----

/// Big-endian bytes of a 16-bit value.
pub open spec fn be16(v: u16) -> Seq<u8> {
    seq![(v / 256) as u8, (v % 256) as u8]
}

/// Big-endian bytes of a 32-bit value.
pub open spec fn be32(v: u32) -> Seq<u8> {
    seq![(v / 0x1000000) as u8, ((v / 0x10000) % 256) as u8, ((v / 256) % 256) as u8, (v % 256) as u8]
}

/// The 16-bit value stored big-endian at `off`.
pub open spec fn get_be16(s: Seq<u8>, off: int) -> u16 {
    (s[off] as int * 256 + s[off + 1] as int) as u16
}

/// The 32-bit value stored big-endian at `off`.
pub open spec fn get_be32(s: Seq<u8>, off: int) -> u32 {
    (s[off] as int * 0x1000000 + s[off + 1] as int * 0x10000 + s[off + 2] as int * 256 + s[off + 3] as int) as u32
}

pub fn be16_bytes(v: u16) -> (r: [u8; 2])
    ensures
        r@ == be16(v),
{
    let r = [(v / 256) as u8, (v % 256) as u8];
    assert(r@ =~= be16(v));
    r
}

pub fn be32_bytes(v: u32) -> (r: [u8; 4])
    ensures
        r@ == be32(v),
{
    let r = [(v / 0x1000000) as u8, ((v / 0x10000) % 256) as u8, ((v / 256) % 256) as u8, (v % 256) as u8];
    assert(r@ =~= be32(v));
    r
}

pub fn read_be16(s: &[u8], off: usize) -> (r: u16)
    requires
        off + 2 <= s@.len(),
    ensures
        r == get_be16(s@, off as int),
{
    (s[off] as u16) * 256 + (s[off + 1] as u16)
}

/// Read a 32-bit big-endian value (an IP address in a packet).
pub fn read_be32(s: &[u8], off: usize) -> (r: u32)
    requires
        off + 4 <= s@.len(),
    ensures
        r == get_be32(s@, off as int),
{
    (s[off] as u32) * 0x1000000 + (s[off + 1] as u32) * 0x10000 + (s[off + 2] as u32) * 256 + (s[off + 3] as u32)
}

/// Reading back what was written gives the value (16 bits).
pub proof fn lemma_be16_roundtrip(v: u16)
    ensures
        get_be16(be16(v), 0) == v,
{
}

/// Reading back what was written gives the value (32 bits).
pub proof fn lemma_be32_roundtrip(v: u32)
    ensures
        get_be32(be32(v), 0) == v,
{
}

/// Append bytes to a growing packet.
pub fn push_all(out: &mut Vec<u8>, bytes: &[u8])
    ensures
        final(out)@ == old(out)@ + bytes@,
{
    let mut i: usize = 0;
    while i < bytes.len()
        invariant
            i <= bytes.len(),
            out@ == old(out)@ + bytes@.take(i as int),
        decreases bytes.len() - i,
    {
        out.push(bytes[i]);
        i = i + 1;
        assert(out@ =~= old(out)@ + bytes@.take(i as int));
    }
    assert(bytes@.take(bytes.len() as int) =~= bytes@);
}

// ---- Ethernet ----

/// Broadcast MAC address.
pub fn eth_broadcast() -> (r: [u8; 6])
    ensures
        r@ == seq![0xFFu8, 0xFFu8, 0xFFu8, 0xFFu8, 0xFFu8, 0xFFu8],
{
    let r = [0xFFu8; 6];
    assert(r@ =~= seq![0xFFu8, 0xFFu8, 0xFFu8, 0xFFu8, 0xFFu8, 0xFFu8]);
    r
}

/// Where a received frame goes: its EtherType and the payload that follows
/// the 14-byte header; frames shorter than a header are dropped.
pub fn rx(frame: &[u8]) -> (r: Option<(u16, usize)>)
    ensures
        frame@.len() < ETH_HEADER_LEN ==> r is None,
        frame@.len() >= ETH_HEADER_LEN ==> r == Some((get_be16(frame@, 12), ETH_HEADER_LEN)),
{
    if frame.len() < ETH_HEADER_LEN {
        return None;
    }
    Some((read_be16(frame, 12), ETH_HEADER_LEN))
}

/// The Ethernet frame carrying `payload`: destination, source, big-endian
/// type, payload.  `None` when it would exceed the maximum frame size.
pub fn send_ethernet(dst_mac: &[u8; 6], our_mac: &[u8; 6], ethertype: u16, payload: &[u8]) -> (r: Option<Vec<u8>>)
    ensures
        payload@.len() + ETH_HEADER_LEN > ETH_MAX_FRAME ==> r is None,
        payload@.len() + ETH_HEADER_LEN <= ETH_MAX_FRAME ==> (r matches Some(f)
            && f@ == dst_mac@ + our_mac@ + be16(ethertype) + payload@),
{
    if payload.len() > ETH_MAX_FRAME - ETH_HEADER_LEN {
        return None;
    }
    let mut f: Vec<u8> = Vec::new();
    push_all(&mut f, dst_mac);
    push_all(&mut f, our_mac);
    let t = be16_bytes(ethertype);
    push_all(&mut f, &t);
    push_all(&mut f, payload);
    Some(f)
}

// ---- Dotted-quad formatting ----

/// Decimal digits of a byte, without leading zeros.
pub open spec fn dec_u8(o: u8) -> Seq<u8> {
    if o >= 100 {
        seq![(48 + o / 100) as u8, (48 + (o / 10) % 10) as u8, (48 + o % 10) as u8]
    } else if o >= 10 {
        seq![(48 + o / 10) as u8, (48 + o % 10) as u8]
    } else {
        seq![(48 + o) as u8]
    }
}

/// "A.B.C.D" for an address in host order (A is the most significant byte).
pub open spec fn ip_text(ip: u32) -> Seq<u8> {
    dec_u8((ip / 0x1000000) as u8) + seq![46u8] + dec_u8(((ip / 0x10000) % 256) as u8) + seq![46u8]
        + dec_u8(((ip / 256) % 256) as u8) + seq![46u8] + dec_u8((ip % 256) as u8)
}

fn push_dec_u8(out: &mut Vec<u8>, o: u8)
    ensures
        final(out)@ == old(out)@ + dec_u8(o),
{
    if o >= 100 {
        out.push(48 + o / 100);
        out.push(48 + (o / 10) % 10);
        out.push(48 + o % 10);
    } else if o >= 10 {
        out.push(48 + o / 10);
        out.push(48 + o % 10);
    } else {
        out.push(48 + o);
    }
    assert(final(out)@ =~= old(out)@ + dec_u8(o));
}

/// Format an address in host order as "A.B.C.D".
pub fn ip_to_str(ip: u32) -> (r: Vec<u8>)
    ensures
        r@ == ip_text(ip),
{
    let mut out: Vec<u8> = Vec::new();
    push_dec_u8(&mut out, (ip / 0x1000000) as u8);
    out.push(46);
    push_dec_u8(&mut out, ((ip / 0x10000) % 256) as u8);
    out.push(46);
    push_dec_u8(&mut out, ((ip / 256) % 256) as u8);
    out.push(46);
    push_dec_u8(&mut out, (ip % 256) as u8);
    assert(out@ =~= ip_text(ip));
    out
}

} // verus!
