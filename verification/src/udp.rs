//! UDP (RFC 768), minimal: no checksum verification (it is optional in
//! IPv4 and sent as zero) and a small port-binding table.

use vstd::prelude::*;
use crate::net::{IP_PROTO_UDP, be16, get_be16, be16_bytes, read_be16, push_all};
use crate::ipv4::{Ipv4, ip_packet, IP_HEADER_LEN, IP_MAX_PACKET};

verus! {

pub const UDP_MAX_BINDS: usize = 16;
pub const UDP_HEADER_LEN: usize = 8;

/// The port-binding table: bound ports and, beside each, its handler.
pub struct UdpTable<H> {
    pub ports: Vec<u16>,
    pub handlers: Vec<H>,
}

/// A datagram to hand to a bound handler: who sent it and where its data
/// lies in the UDP message.
pub struct UdpDelivery<H> {
    pub handler: H,
    pub src_ip: u32,
    pub src_port: u16,
    pub data_start: usize,
    pub data_len: u16,
}

impl<H: Copy> UdpTable<H> {
    /// At most 16 bindings, each port bound once.
    pub open spec fn wf(&self) -> bool {
        &&& self.ports@.len() == self.handlers@.len()
        &&& self.ports@.len() <= UDP_MAX_BINDS
        &&& forall|i: int, j: int| 0 <= i < j < self.ports@.len() ==> self.ports@[i] != self.ports@[j]
    }

    pub fn new() -> (t: Self)
        ensures
            t.wf(),
            t.ports@.len() == 0,
    {
        UdpTable { ports: Vec::new(), handlers: Vec::new() }
    }

    /// Bind `handler` to `port`.  A port that is already bound gets the new
    /// handler; otherwise a new binding is added.  Returns 1 on success, 0
    /// when the table is full.
    pub fn bind(&mut self, port: u16, handler: H) -> (r: i32)
        requires
            old(self).wf(),
        ensures
            final(self).wf(),
            old(self).ports@.contains(port) ==> r == 1 && final(self).ports@ == old(self).ports@
                && (forall|i: int| 0 <= i < old(self).ports@.len() && old(self).ports@[i] == port
                    ==> final(self).handlers@ == old(self).handlers@.update(i, handler)),
            !old(self).ports@.contains(port) && old(self).ports@.len() >= UDP_MAX_BINDS ==> r == 0
                && final(self).ports@ == old(self).ports@ && final(self).handlers@ == old(self).handlers@,
            !old(self).ports@.contains(port) && old(self).ports@.len() < UDP_MAX_BINDS ==> r == 1
                && final(self).ports@ == old(self).ports@.push(port)
                && final(self).handlers@ == old(self).handlers@.push(handler),
    {
        let n = self.ports.len();
        let mut i: usize = 0;
        while i < n
            invariant
                n == self.ports@.len(),
                self.ports@ == old(self).ports@,
                self.handlers@ == old(self).handlers@,
                old(self).wf(),
                i <= n,
                forall|k: int| 0 <= k < i ==> self.ports@[k] != port,
            decreases n - i,
        {
            if self.ports[i] == port {
                self.handlers.set(i, handler);
                assert(old(self).ports@.contains(port));
                return 1;
            }
            i = i + 1;
        }
        assert(!old(self).ports@.contains(port));
        if n >= UDP_MAX_BINDS {
            return 0;
        }
        self.ports.push(port);
        self.handlers.push(handler);
        1
    }

    /// Locate the binding for a port.
    fn find(&self, port: u16) -> (r: Option<usize>)
        requires
            self.wf(),
        ensures
            !self.ports@.contains(port) ==> r is None,
            self.ports@.contains(port) ==> (r matches Some(i) && i < self.ports@.len() && self.ports@[i as int] == port),
    {
        let n = self.ports.len();
        let mut i: usize = 0;
        while i < n
            invariant
                n == self.ports@.len(),
                i <= n,
                forall|k: int| 0 <= k < i ==> self.ports@[k] != port,
            decreases n - i,
        {
            if self.ports[i] == port {
                return Some(i);
            }
            i = i + 1;
        }
        None
    }

    /// Dispatch a received UDP message from `src_ip`: when it holds a whole
    /// header, its length field lies between 8 and the message length and
    /// its destination port is bound, the delivery for that port's handler.
    pub fn rx(&self, src_ip: u32, data: &[u8]) -> (r: Option<UdpDelivery<H>>)
        requires
            self.wf(),
            data@.len() <= 65535,
        ensures
            udp_accepts(data@) && self.ports@.contains(get_be16(data@, 2)) ==> (r matches Some(d)
                && (forall|i: int| 0 <= i < self.ports@.len() && self.ports@[i] == get_be16(data@, 2)
                    ==> d.handler == self.handlers@[i])
                && d.src_ip == src_ip && d.src_port == get_be16(data@, 0)
                && d.data_start == UDP_HEADER_LEN && d.data_len == get_be16(data@, 4) - 8),
            !(udp_accepts(data@) && self.ports@.contains(get_be16(data@, 2))) ==> r is None,
    {
        if data.len() < UDP_HEADER_LEN {
            return None;
        }
        let dst_port = read_be16(data, 2);
        let udp_len = read_be16(data, 4);
        if udp_len < 8 || udp_len as usize > data.len() {
            return None;
        }
        match self.find(dst_port) {
            Some(i) => {
                Some(UdpDelivery {
                    handler: self.handlers[i],
                    src_ip,
                    src_port: read_be16(data, 0),
                    data_start: UDP_HEADER_LEN,
                    data_len: udp_len - 8,
                })
            },
            None => None,
        }
    }
}

/// A message is accepted when it holds a header and its length field lies
/// between the header size and the message length.
pub open spec fn udp_accepts(d: Seq<u8>) -> bool {
    &&& d.len() >= UDP_HEADER_LEN
    &&& 8 <= get_be16(d, 4) <= d.len()
}

/// The UDP message: source port, destination port, length, zero checksum,
/// then the data.
pub open spec fn udp_message(src_port: u16, dst_port: u16, data: Seq<u8>) -> Seq<u8> {
    be16(src_port) + be16(dst_port) + be16((UDP_HEADER_LEN + data.len()) as u16) + seq![0u8, 0u8] + data
}

/// Build the UDP message for `data` and wrap it in an IPv4 packet to
/// `dst_ip`.  `None` when the message would exceed 1480 bytes.
pub fn send(ip: &mut Ipv4, dst_ip: u32, src_port: u16, dst_port: u16, data: &[u8]) -> (r: Option<Vec<u8>>)
    ensures
        data@.len() + UDP_HEADER_LEN > IP_MAX_PACKET - IP_HEADER_LEN ==> r is None && *final(ip) == *old(ip),
        data@.len() + UDP_HEADER_LEN <= IP_MAX_PACKET - IP_HEADER_LEN ==> (r matches Some(p)
            && p@ == ip_packet(old(ip).id_counter, IP_PROTO_UDP, dst_ip, udp_message(src_port, dst_port, data@))
            && final(ip).id_counter == vstd::wrapping::u16_specs::wrapping_add(old(ip).id_counter, 1)),
{
    if data.len() > IP_MAX_PACKET - IP_HEADER_LEN - UDP_HEADER_LEN {
        return None;
    }
    let udp_len = (UDP_HEADER_LEN + data.len()) as u16;
    let mut m: Vec<u8> = Vec::new();
    push_all(&mut m, &be16_bytes(src_port));
    push_all(&mut m, &be16_bytes(dst_port));
    push_all(&mut m, &be16_bytes(udp_len));
    m.push(0);
    m.push(0);
    push_all(&mut m, data);
    assert(m@ =~= udp_message(src_port, dst_port, data@));
    ip.send(dst_ip, IP_PROTO_UDP, m.as_slice())
}

} // verus!
