//! ICMP (RFC 792): echo requests are answered with echo replies, and the
//! last echo reply received is recorded for the ping command.

use vstd::prelude::*;
use crate::net::{IP_PROTO_ICMP, be16, get_be16, be16_bytes, push_all};
use crate::ipv4::{Ipv4, checksum, inet_checksum, ip_packet, lemma_checksum_inserted, IP_HEADER_LEN, IP_MAX_PACKET};

verus! {

pub const ICMP_ECHO_REPLY: u8 = 0;
pub const ICMP_ECHO_REQUEST: u8 = 8;
pub const ICMP_HEADER_LEN: usize = 8;

/// The last echo reply received, and whether it is still unread.
pub struct IcmpState {
    pub reply_received: i32,
    pub reply_id: u16,
    pub reply_seq: u16,
    pub reply_src_ip: u32,
}

/// `s` with its checksum bytes (2 and 3) set to the little-endian `c`.
pub open spec fn with_checksum(s: Seq<u8>, c: u16) -> Seq<u8> {
    s.update(2, (c % 256) as u8).update(3, (c / 256) as u8)
}

/// The echo reply to an echo request: the same message with type 0 and
/// the checksum recomputed over it.
pub open spec fn echo_reply(d: Seq<u8>) -> Seq<u8> {
    let z = with_checksum(d.update(0, ICMP_ECHO_REPLY), 0);
    with_checksum(z, inet_checksum(z))
}

/// An echo request with the given identifier and sequence number.
pub open spec fn echo_request(id: u16, seq: u16) -> Seq<u8> {
    let z = seq![ICMP_ECHO_REQUEST, 0u8, 0u8, 0u8] + be16(id) + be16(seq);
    with_checksum(z, inet_checksum(z))
}

/// What receiving a message does to the recorded reply: an echo reply is
/// recorded as unread; anything else leaves the state as it was.
pub open spec fn record_reply(st: IcmpState, src_ip: u32, d: Seq<u8>) -> IcmpState {
    if d.len() >= ICMP_HEADER_LEN && d.len() <= 65535 && inet_checksum(d) == 0 && d[0] == ICMP_ECHO_REPLY && d[1] == 0 {
        IcmpState { reply_received: 1, reply_id: get_be16(d, 4), reply_seq: get_be16(d, 6), reply_src_ip: src_ip }
    } else {
        st
    }
}

impl IcmpState {
    pub fn new() -> (s: IcmpState)
        ensures
            s.reply_received == 0,
    {
        IcmpState { reply_received: 0, reply_id: 0, reply_seq: 0, reply_src_ip: 0 }
    }
}

fn set_checksum(v: &mut Vec<u8>, c: u16)
    requires
        old(v)@.len() >= 4,
    ensures
        final(v)@ == with_checksum(old(v)@, c),
{
    v.set(2, (c % 256) as u8);
    v.set(3, (c / 256) as u8);
}

/// Handle a received ICMP message from `src_ip`.  A message that is too
/// short or fails its checksum is dropped.  An echo request of at most
/// 1500 bytes is answered: the result is the IPv4 packet carrying the
/// reply.  An echo reply is recorded in `st`.
pub fn rx(ip: &mut Ipv4, st: &mut IcmpState, src_ip: u32, data: &[u8]) -> (r: Option<Vec<u8>>)
    requires
        data@.len() <= 65535,
    ensures
        *final(st) == record_reply(*old(st), src_ip, data@),
        ({
            let d = data@;
            let answer = d.len() >= ICMP_HEADER_LEN && inet_checksum(d) == 0 && d[0] == ICMP_ECHO_REQUEST
                && d[1] == 0 && d.len() + IP_HEADER_LEN <= IP_MAX_PACKET;
            &&& answer ==> (r matches Some(p) && p@ == ip_packet(old(ip).id_counter, IP_PROTO_ICMP, src_ip, echo_reply(d))
                && final(ip).id_counter == vstd::wrapping::u16_specs::wrapping_add(old(ip).id_counter, 1))
            &&& !answer ==> r is None && *final(ip) == *old(ip)
        }),
{
    if data.len() < ICMP_HEADER_LEN {
        return None;
    }
    if checksum(data) != 0 {
        return None;
    }
    let t = data[0];
    let code = data[1];
    if t == ICMP_ECHO_REQUEST && code == 0 {
        if data.len() > 1500 {
            return None;
        }
        let mut reply: Vec<u8> = Vec::new();
        push_all(&mut reply, data);
        reply.set(0, ICMP_ECHO_REPLY);
        set_checksum(&mut reply, 0);
        let c = checksum(reply.as_slice());
        set_checksum(&mut reply, c);
        ip.send(src_ip, IP_PROTO_ICMP, reply.as_slice())
    } else if t == ICMP_ECHO_REPLY && code == 0 {
        st.reply_id = crate::net::read_be16(data, 4);
        st.reply_seq = crate::net::read_be16(data, 6);
        st.reply_src_ip = src_ip;
        st.reply_received = 1;
        None
    } else {
        None
    }
}

/// Build the IPv4 packet carrying an echo request (ping) to `dst_ip`.
pub fn send_echo_request(ip: &mut Ipv4, dst_ip: u32, id: u16, seq: u16) -> (r: Option<Vec<u8>>)
    ensures
        r matches Some(p) && p@ == ip_packet(old(ip).id_counter, IP_PROTO_ICMP, dst_ip, echo_request(id, seq)),
        final(ip).id_counter == vstd::wrapping::u16_specs::wrapping_add(old(ip).id_counter, 1),
{
    let mut pkt: Vec<u8> = Vec::new();
    pkt.push(ICMP_ECHO_REQUEST);
    pkt.push(0);
    pkt.push(0);
    pkt.push(0);
    push_all(&mut pkt, &be16_bytes(id));
    push_all(&mut pkt, &be16_bytes(seq));
    assert(pkt@ =~= seq![ICMP_ECHO_REQUEST, 0u8, 0u8, 0u8] + be16(id) + be16(seq));
    let c = checksum(pkt.as_slice());
    set_checksum(&mut pkt, c);
    ip.send(dst_ip, IP_PROTO_ICMP, pkt.as_slice())
}

/// Take the recorded echo reply: when one is unread, fill the outputs with
/// its identifier, sequence number and source, mark it read and return 1;
/// otherwise return 0 and leave everything unchanged.
pub fn got_reply(st: &mut IcmpState, out_id: &mut u16, out_seq: &mut u16, out_src_ip: &mut u32) -> (r: i32)
    ensures
        r == old(st).reply_received,
        r != 0 ==> *final(out_id) == old(st).reply_id && *final(out_seq) == old(st).reply_seq
            && *final(out_src_ip) == old(st).reply_src_ip && *final(st) == (IcmpState { reply_received: 0, ..*old(st) }),
        r == 0 ==> *final(out_id) == *old(out_id) && *final(out_seq) == *old(out_seq)
            && *final(out_src_ip) == *old(out_src_ip) && *final(st) == *old(st),
{
    let got = st.reply_received;
    if got != 0 {
        *out_id = st.reply_id;
        *out_seq = st.reply_seq;
        *out_src_ip = st.reply_src_ip;
        st.reply_received = 0;
    }
    got
}

/// Every echo request we build passes the receiver's checksum check.
pub proof fn lemma_echo_request_checksum(id: u16, seq: u16)
    ensures
        inet_checksum(echo_request(id, seq)) == 0,
{
    let z = seq![ICMP_ECHO_REQUEST, 0u8, 0u8, 0u8] + be16(id) + be16(seq);
    lemma_checksum_inserted(z, 1);
}

/// The reply to an echo request passes the requester's checksum check and
/// is recorded there as an echo reply carrying the request's identifier
/// and sequence number, from the replier's address.
pub proof fn lemma_echo_roundtrip(st: IcmpState, replier_ip: u32, d: Seq<u8>)
    requires
        ICMP_HEADER_LEN <= d.len() <= 65535,
        d[0] == ICMP_ECHO_REQUEST,
        d[1] == 0,
    ensures
        inet_checksum(echo_reply(d)) == 0,
        record_reply(st, replier_ip, echo_reply(d)) == (IcmpState {
            reply_received: 1,
            reply_id: get_be16(d, 4),
            reply_seq: get_be16(d, 6),
            reply_src_ip: replier_ip,
        }),
{
    let z = with_checksum(d.update(0, ICMP_ECHO_REPLY), 0);
    lemma_checksum_inserted(z, 1);
    let e = echo_reply(d);
    assert(e[0] == ICMP_ECHO_REPLY && e[1] == 0);
    assert(e[4] == d[4] && e[5] == d[5] && e[6] == d[6] && e[7] == d[7]);
}

} // verus!
