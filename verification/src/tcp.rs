//! TCP client (RFC 793, minimal subset): connect, send, receive, close.
//!
//! No listen/accept, no congestion control, no options.  The window is
//! fixed at 4096.  Received data goes into a per-connection circular
//! buffer.  Everything that waits (for a reply, for a timeout) is left to
//! the caller: these functions decide the next state and the segments to
//! send.

use vstd::prelude::*;
use crate::net::{NET_IP_ADDR, IP_PROTO_TCP, be16, be32, get_be16, get_be32, be16_bytes, be32_bytes, read_be16, read_be32, push_all};
use crate::ipv4::{inet_checksum, checksum};

verus! {

// TCP flag bits
pub const TCP_FIN: u8 = 0x01;
pub const TCP_SYN: u8 = 0x02;
pub const TCP_RST: u8 = 0x04;
pub const TCP_PSH: u8 = 0x08;
pub const TCP_ACK: u8 = 0x10;

// TCP states (client-only subset)
pub const TCP_CLOSED: i32 = 0;
pub const TCP_SYN_SENT: i32 = 1;
pub const TCP_ESTABLISHED: i32 = 2;
pub const TCP_FIN_WAIT_1: i32 = 3;
pub const TCP_FIN_WAIT_2: i32 = 4;
pub const TCP_TIME_WAIT: i32 = 5;

pub const TCP_MAX_CONNS: usize = 4;
pub const TCP_RX_BUF_SIZE: usize = 4096;
pub const TCP_WINDOW: u16 = 4096;
pub const TCP_HEADER_LEN: usize = 20;
/// Largest segment (header and data) that is checksummed and sent.
pub const TCP_MAX_SEGMENT: usize = 1480;
pub const TCP_FIRST_PORT: u16 = 49152;

/// One connection slot.
pub struct TcpConn {
    pub in_use: bool,
    pub state: i32,
    pub remote_ip: u32,
    pub remote_port: u16,
    pub local_port: u16,
    pub send_seq: u32,
    pub send_ack: u32,
    pub rx_buf: Vec<u8>,
    pub rx_head: u16,
    pub rx_tail: u16,
    pub fin_received: bool,
    pub connected: bool,
}

pub struct ConnView {
    pub in_use: bool,
    pub state: i32,
    pub remote_ip: u32,
    pub remote_port: u16,
    pub local_port: u16,
    pub send_seq: u32,
    pub send_ack: u32,
    pub rx_buf: Seq<u8>,
    pub rx_head: u16,
    pub rx_tail: u16,
    pub fin_received: bool,
    pub connected: bool,
}

impl TcpConn {
    pub open spec fn view(&self) -> ConnView {
        ConnView {
            in_use: self.in_use,
            state: self.state,
            remote_ip: self.remote_ip,
            remote_port: self.remote_port,
            local_port: self.local_port,
            send_seq: self.send_seq,
            send_ack: self.send_ack,
            rx_buf: self.rx_buf@,
            rx_head: self.rx_head,
            rx_tail: self.rx_tail,
            fin_received: self.fin_received,
            connected: self.connected,
        }
    }

    /// A closed, unused slot with an empty receive buffer.
    pub fn new() -> (c: TcpConn)
        ensures
            c.view() == fresh_conn(),
    {
        let mut buf: Vec<u8> = Vec::new();
        let mut i: usize = 0;
        while i < TCP_RX_BUF_SIZE
            invariant
                i <= TCP_RX_BUF_SIZE,
                buf@ == Seq::new(i as nat, |j: int| 0u8),
            decreases TCP_RX_BUF_SIZE - i,
        {
            buf.push(0);
            i = i + 1;
            assert(buf@ =~= Seq::new(i as nat, |j: int| 0u8));
        }
        TcpConn {
            in_use: false,
            state: TCP_CLOSED,
            remote_ip: 0,
            remote_port: 0,
            local_port: 0,
            send_seq: 0,
            send_ack: 0,
            rx_buf: buf,
            rx_head: 0,
            rx_tail: 0,
            fin_received: false,
            connected: false,
        }
    }
}

pub open spec fn fresh_conn() -> ConnView {
    ConnView {
        in_use: false,
        state: TCP_CLOSED,
        remote_ip: 0,
        remote_port: 0,
        local_port: 0,
        send_seq: 0,
        send_ack: 0,
        rx_buf: Seq::new(TCP_RX_BUF_SIZE as nat, |j: int| 0u8),
        rx_head: 0,
        rx_tail: 0,
        fin_received: false,
        connected: false,
    }
}

pub open spec fn conn_wf(c: ConnView) -> bool {
    &&& c.rx_buf.len() == TCP_RX_BUF_SIZE
    &&& c.rx_head < TCP_RX_BUF_SIZE
    &&& c.rx_tail < TCP_RX_BUF_SIZE
}

/// A segment to send: addressing, sequence numbers, flags and data.
pub struct Segment {
    pub remote_ip: u32,
    pub src_port: u16,
    pub dst_port: u16,
    pub seq: u32,
    pub ack: u32,
    pub flags: u8,
    pub data: Vec<u8>,
}

pub struct SegView {
    pub remote_ip: u32,
    pub src_port: u16,
    pub dst_port: u16,
    pub seq: u32,
    pub ack: u32,
    pub flags: u8,
    pub data: Seq<u8>,
}

impl Segment {
    pub open spec fn view(&self) -> SegView {
        SegView {
            remote_ip: self.remote_ip,
            src_port: self.src_port,
            dst_port: self.dst_port,
            seq: self.seq,
            ack: self.ack,
            flags: self.flags,
            data: self.data@,
        }
    }
}

/// The segment a connection sends with the given flags and no data.
pub open spec fn ctl_seg(c: ConnView, flags: u8) -> SegView {
    SegView {
        remote_ip: c.remote_ip,
        src_port: c.local_port,
        dst_port: c.remote_port,
        seq: c.send_seq,
        ack: c.send_ack,
        flags,
        data: Seq::empty(),
    }
}

fn ctl_segment(c: &TcpConn, flags: u8) -> (s: Segment)
    ensures
        s.view() == ctl_seg(c.view(), flags),
{
    Segment {
        remote_ip: c.remote_ip,
        src_port: c.local_port,
        dst_port: c.remote_port,
        seq: c.send_seq,
        ack: c.send_ack,
        flags,
        data: Vec::new(),
    }
}

// ---- Wire format ----

/// The pseudo-header that the TCP checksum covers before the segment.
pub open spec fn pseudo_header(src_ip: u32, dst_ip: u32, tcp_len: u16) -> Seq<u8> {
    be32(src_ip) + be32(dst_ip) + seq![0u8, 6u8] + be16(tcp_len)
}

/// TCP checksum of a segment between two addresses; a segment longer than
/// `TCP_MAX_SEGMENT` is not checksummed and gives 0.
pub open spec fn tcp_csum(src_ip: u32, dst_ip: u32, seg: Seq<u8>) -> u16 {
    if seg.len() > TCP_MAX_SEGMENT {
        0
    } else {
        inet_checksum(pseudo_header(src_ip, dst_ip, seg.len() as u16) + seg)
    }
}

/// Compute the TCP checksum over pseudo-header and segment.
pub fn tcp_checksum(src_ip: u32, dst_ip: u32, tcp_seg: &[u8]) -> (r: u16)
    ensures
        r == tcp_csum(src_ip, dst_ip, tcp_seg@),
{
    if tcp_seg.len() > TCP_MAX_SEGMENT {
        return 0;
    }
    let mut buf: Vec<u8> = Vec::new();
    push_all(&mut buf, &be32_bytes(src_ip));
    push_all(&mut buf, &be32_bytes(dst_ip));
    buf.push(0);
    buf.push(6);
    push_all(&mut buf, &be16_bytes(tcp_seg.len() as u16));
    push_all(&mut buf, tcp_seg);
    assert(buf@ =~= pseudo_header(src_ip, dst_ip, tcp_seg@.len() as u16) + tcp_seg@);
    checksum(buf.as_slice())
}

/// The 20-byte header with the given checksum bytes.
pub open spec fn tcp_header(s: SegView, c0: u8, c1: u8) -> Seq<u8> {
    be16(s.src_port) + be16(s.dst_port) + be32(s.seq) + be32(s.ack) + seq![0x50u8, s.flags]
        + be16(TCP_WINDOW) + seq![c0, c1, 0u8, 0u8]
}

/// Wire bytes of a segment we send: header, then data, with the checksum
/// (little-endian) computed over our pseudo-header and the segment with a
/// zero checksum field.
pub open spec fn seg_bytes(s: SegView) -> Seq<u8> {
    let z = tcp_header(s, 0, 0) + s.data;
    let c = tcp_csum(NET_IP_ADDR, s.remote_ip, z);
    tcp_header(s, (c % 256) as u8, (c / 256) as u8) + s.data
}

fn header_bytes(s: &Segment, c0: u8, c1: u8) -> (r: Vec<u8>)
    ensures
        r@ == tcp_header(s.view(), c0, c1),
{
    let mut h: Vec<u8> = Vec::new();
    push_all(&mut h, &be16_bytes(s.src_port));
    push_all(&mut h, &be16_bytes(s.dst_port));
    push_all(&mut h, &be32_bytes(s.seq));
    push_all(&mut h, &be32_bytes(s.ack));
    h.push(0x50);
    h.push(s.flags);
    push_all(&mut h, &be16_bytes(TCP_WINDOW));
    h.push(c0);
    h.push(c1);
    h.push(0);
    h.push(0);
    assert(h@ =~= tcp_header(s.view(), c0, c1));
    h
}

/// Encode a segment for sending.  `None` when header and data exceed
/// `TCP_MAX_SEGMENT` bytes (such a segment is not sent).
pub fn tcp_send_segment(s: &Segment) -> (r: Option<Vec<u8>>)
    ensures
        s.data@.len() + TCP_HEADER_LEN > TCP_MAX_SEGMENT ==> r is None,
        s.data@.len() + TCP_HEADER_LEN <= TCP_MAX_SEGMENT ==> (r matches Some(b) && b@ == seg_bytes(s.view())),
{
    if s.data.len() > TCP_MAX_SEGMENT - TCP_HEADER_LEN {
        return None;
    }
    let mut z = header_bytes(s, 0, 0);
    push_all(&mut z, s.data.as_slice());
    let c = tcp_checksum(NET_IP_ADDR, s.remote_ip, z.as_slice());
    let mut b = header_bytes(s, (c % 256) as u8, (c / 256) as u8);
    push_all(&mut b, s.data.as_slice());
    Some(b)
}

// ---- Receive ring buffer ----

/// Store `data[j..]` into the ring at `head`, stopping when the ring is
/// full (one slot always stays free).  Gives the new buffer and head.
pub open spec fn ring_push(buf: Seq<u8>, head: int, tail: int, data: Seq<u8>, j: int) -> (Seq<u8>, int)
    decreases data.len() - j,
{
    if j >= data.len() || j < 0 {
        (buf, head)
    } else if (head + 1) % (TCP_RX_BUF_SIZE as int) == tail {
        (buf, head)
    } else {
        ring_push(buf.update(head, data[j]), (head + 1) % (TCP_RX_BUF_SIZE as int), tail, data, j + 1)
    }
}

/// Bytes waiting in the ring.
pub open spec fn ring_avail(head: int, tail: int) -> int {
    if head >= tail { head - tail } else { TCP_RX_BUF_SIZE - tail + head }
}

/// The `n` bytes that follow `tail` in the ring.
pub open spec fn ring_read(buf: Seq<u8>, tail: int, n: int) -> Seq<u8> {
    Seq::new(n as nat, |j: int| buf[(tail + j) % (TCP_RX_BUF_SIZE as int)])
}


pub open spec fn wadd(x: u32, y: u32) -> u32 {
    vstd::wrapping::u32_specs::wrapping_add(x, y)
}

/// The connection after storing `payload` into its receive ring.
pub open spec fn conn_store(c: ConnView, payload: Seq<u8>) -> ConnView {
    let (b, h) = ring_push(c.rx_buf, c.rx_head as int, c.rx_tail as int, payload, 0);
    ConnView { rx_buf: b, rx_head: h as u16, ..c }
}

/// What an incoming segment does to the connection it belongs to, and the
/// segments sent in answer.
pub open spec fn rx_conn(c: ConnView, seq: u32, ack: u32, flags: u8, payload: Seq<u8>) -> (ConnView, Seq<SegView>) {
    if flags & TCP_RST != 0 {
        (ConnView { state: TCP_CLOSED, in_use: false, connected: false, fin_received: true, ..c }, Seq::empty())
    } else if c.state == TCP_SYN_SENT {
        if flags & (TCP_SYN | TCP_ACK) == (TCP_SYN | TCP_ACK) && ack == wadd(c.send_seq, 1) {
            let c1 = ConnView { send_seq: ack, send_ack: wadd(seq, 1), state: TCP_ESTABLISHED, connected: true, ..c };
            (c1, seq![ctl_seg(c1, TCP_ACK)])
        } else {
            (c, Seq::empty())
        }
    } else if c.state == TCP_ESTABLISHED {
        let plen = payload.len() as u32;
        let c1 = if payload.len() > 0 {
            ConnView { send_ack: wadd(seq, plen), ..conn_store(c, payload) }
        } else {
            c
        };
        let s1: Seq<SegView> = if payload.len() > 0 { seq![ctl_seg(c1, TCP_ACK)] } else { Seq::empty() };
        if flags & TCP_FIN != 0 {
            let c2 = ConnView { send_ack: wadd(wadd(seq, plen), 1), fin_received: true, state: TCP_TIME_WAIT, ..c1 };
            (c2, s1.push(ctl_seg(c2, TCP_ACK)))
        } else {
            (c1, s1)
        }
    } else if c.state == TCP_FIN_WAIT_1 {
        if flags & TCP_ACK != 0 {
            if flags & TCP_FIN != 0 {
                let c1 = ConnView { send_ack: wadd(seq, 1), state: TCP_TIME_WAIT, ..c };
                (c1, seq![ctl_seg(c1, TCP_ACK)])
            } else {
                (ConnView { state: TCP_FIN_WAIT_2, ..c }, Seq::empty())
            }
        } else {
            (c, Seq::empty())
        }
    } else if c.state == TCP_FIN_WAIT_2 {
        if flags & TCP_FIN != 0 {
            let c1 = ConnView { send_ack: wadd(seq, 1), state: TCP_TIME_WAIT, fin_received: true, ..c };
            (c1, seq![ctl_seg(c1, TCP_ACK)])
        } else {
            (c, Seq::empty())
        }
    } else {
        (c, Seq::empty())
    }
}

/// The reset sent for a segment that matches no connection (none for a
/// reset).
pub open spec fn rst_reply(src_ip: u32, sport: u16, dport: u16, seq: u32, ack: u32, flags: u8, plen: u32) -> Seq<SegView> {
    if flags & TCP_RST != 0 {
        Seq::empty()
    } else if flags & TCP_ACK != 0 {
        seq![SegView { remote_ip: src_ip, src_port: dport, dst_port: sport, seq: ack, ack: 0, flags: TCP_RST, data: Seq::empty() }]
    } else {
        let a0 = wadd(seq, plen);
        let a1 = if flags & TCP_SYN != 0 { wadd(a0, 1) } else { a0 };
        let a2 = if flags & TCP_FIN != 0 { wadd(a1, 1) } else { a1 };
        seq![SegView { remote_ip: src_ip, src_port: dport, dst_port: sport, seq: 0, ack: a2, flags: (TCP_RST | TCP_ACK) as u8, data: Seq::empty() }]
    }
}

/// Index of the first connection in use with this remote address, remote
/// port and local port, among the first `n`.
pub open spec fn find_conn(conns: Seq<ConnView>, n: int, ip: u32, rport: u16, lport: u16) -> Option<int>
    decreases n,
{
    if n <= 0 {
        None
    } else {
        match find_conn(conns, n - 1, ip, rport, lport) {
            Some(i) => Some(i),
            None => {
                let c = conns[n - 1];
                if c.in_use && c.remote_ip == ip && c.remote_port == rport && c.local_port == lport {
                    Some(n - 1)
                } else {
                    None
                }
            },
        }
    }
}

/// Header length in bytes given by the data-offset byte.
pub open spec fn data_offset_bytes(b: u8) -> int {
    (b / 16) as int * 4
}

/// Whether an incoming segment is looked at: long enough, checksum valid,
/// header length between 20 and the segment length.
pub open spec fn seg_ok(src_ip: u32, d: Seq<u8>) -> bool {
    &&& d.len() >= TCP_HEADER_LEN
    &&& tcp_csum(src_ip, NET_IP_ADDR, d) == 0
    &&& data_offset_bytes(d[12]) >= TCP_HEADER_LEN
    &&& data_offset_bytes(d[12]) <= d.len()
}

/// Effect of an incoming segment on the connection table, and the segments
/// sent in answer.
pub open spec fn rx_spec(conns: Seq<ConnView>, src_ip: u32, d: Seq<u8>) -> (Seq<ConnView>, Seq<SegView>) {
    if !seg_ok(src_ip, d) {
        (conns, Seq::empty())
    } else {
        let hl = data_offset_bytes(d[12]);
        let payload = d.subrange(hl, d.len() as int);
        let sport = get_be16(d, 0);
        let dport = get_be16(d, 2);
        let seq = get_be32(d, 4);
        let ack = get_be32(d, 8);
        let flags = d[13];
        match find_conn(conns, conns.len() as int, src_ip, sport, dport) {
            None => (conns, rst_reply(src_ip, sport, dport, seq, ack, flags, payload.len() as u32)),
            Some(i) => {
                let (c1, segs) = rx_conn(conns[i], seq, ack, flags, payload);
                (conns.update(i, c1), segs)
            },
        }
    }
}

/// The connection table and the next local port to hand out.
pub struct Tcp {
    conns: Vec<TcpConn>,
    next_local_port: u16,
}

fn placeholder() -> (c: TcpConn) {
    TcpConn {
        in_use: false,
        state: TCP_CLOSED,
        remote_ip: 0,
        remote_port: 0,
        local_port: 0,
        send_seq: 0,
        send_ack: 0,
        rx_buf: Vec::new(),
        rx_head: 0,
        rx_tail: 0,
        fin_received: false,
        connected: false,
    }
}

pub open spec fn segs_view(v: Seq<Segment>) -> Seq<SegView> {
    v.map_values(|s: Segment| s.view())
}

fn ring_store(c: &mut TcpConn, payload: &[u8])
    requires
        conn_wf(old(c).view()),
    ensures
        conn_wf(final(c).view()),
        final(c).view() == conn_store(old(c).view(), payload@),
{
    let mut j: usize = 0;
    let mut full = false;
    while j < payload.len() && !full
        invariant
            conn_wf(c.view()),
            j <= payload.len(),
            c.view() == (ConnView { rx_buf: c.rx_buf@, rx_head: c.rx_head, ..old(c).view() }),
            full ==> (c.rx_head as int + 1) % (TCP_RX_BUF_SIZE as int) == c.rx_tail,
            ring_push(c.rx_buf@, c.rx_head as int, c.rx_tail as int, payload@, j as int) == ring_push(
                old(c).rx_buf@,
                old(c).rx_head as int,
                old(c).rx_tail as int,
                payload@,
                0,
            ),
        decreases payload.len() - j, if full { 0int } else { 1int },
    {
        let next = ((c.rx_head as usize + 1) % TCP_RX_BUF_SIZE) as u16;
        if next == c.rx_tail {
            full = true;
        } else {
            let h = c.rx_head as usize;
            c.rx_buf.set(h, payload[j]);
            c.rx_head = next;
            j = j + 1;
        }
    }
}

impl Tcp {
    pub closed spec fn conns(&self) -> Seq<ConnView> {
        self.conns@.map_values(|c: TcpConn| c.view())
    }

    pub closed spec fn next_port(&self) -> u16 {
        self.next_local_port
    }

    pub closed spec fn wf(&self) -> bool {
        &&& self.conns@.len() == TCP_MAX_CONNS
        &&& forall|i: int| 0 <= i < TCP_MAX_CONNS ==> #[trigger] conn_wf(self.conns@[i].view())
    }

    /// Initialize the TCP subsystem: every slot closed and unused, local
    /// ports starting at 49152.
    pub fn init() -> (t: Tcp)
        ensures
            t.wf(),
            t.conns() == Seq::new(TCP_MAX_CONNS as nat, |i: int| fresh_conn()),
            t.next_port() == TCP_FIRST_PORT,
    {
        let mut conns: Vec<TcpConn> = Vec::new();
        let mut i: usize = 0;
        while i < TCP_MAX_CONNS
            invariant
                i <= TCP_MAX_CONNS,
                conns@.len() == i,
                forall|j: int| 0 <= j < i ==> #[trigger] conns@[j].view() == fresh_conn(),
            decreases TCP_MAX_CONNS - i,
        {
            conns.push(TcpConn::new());
            i = i + 1;
        }
        let t = Tcp { conns, next_local_port: TCP_FIRST_PORT };
        assert(t.conns() =~= Seq::new(TCP_MAX_CONNS as nat, |i: int| fresh_conn()));
        t
    }

    fn take(&mut self, i: usize) -> (c: TcpConn)
        requires
            old(self).wf(),
            i < TCP_MAX_CONNS,
        ensures
            c.view() == old(self).conns()[i as int],
            final(self).conns@.len() == TCP_MAX_CONNS,
            forall|j: int| 0 <= j < TCP_MAX_CONNS && j != i ==> final(self).conns@[j] == old(self).conns@[j],
            conn_wf(c.view()),
            final(self).next_local_port == old(self).next_local_port,
    {
        let mut c = placeholder();
        std::mem::swap(&mut c, &mut self.conns[i]);
        c
    }

    fn put(&mut self, i: usize, c: TcpConn)
        requires
            old(self).conns@.len() == TCP_MAX_CONNS,
            i < TCP_MAX_CONNS,
            conn_wf(c.view()),
            forall|j: int| 0 <= j < TCP_MAX_CONNS && j != i ==> #[trigger] conn_wf(old(self).conns@[j].view()),
        ensures
            final(self).wf(),
            final(self).conns() == old(self).conns().update(i as int, c.view()),
            final(self).next_local_port == old(self).next_local_port,
    {
        let ghost cv = c.view();
        self.conns.set(i, c);
        assert(self.conns() =~= old(self).conns().update(i as int, cv));
    }
}


fn rx_conn_exec(c: &mut TcpConn, seq: u32, ack: u32, flags: u8, payload: &[u8]) -> (out: Vec<Segment>)
    requires
        conn_wf(old(c).view()),
    ensures
        conn_wf(final(c).view()),
        final(c).view() == rx_conn(old(c).view(), seq, ack, flags, payload@).0,
        segs_view(out@) == rx_conn(old(c).view(), seq, ack, flags, payload@).1,
{
    let mut out: Vec<Segment> = Vec::new();
    if flags & TCP_RST != 0 {
        c.state = TCP_CLOSED;
        c.in_use = false;
        c.connected = false;
        c.fin_received = true;
    } else if c.state == TCP_SYN_SENT {
        if (flags & (TCP_SYN | TCP_ACK)) == (TCP_SYN | TCP_ACK) && ack == c.send_seq.wrapping_add(1) {
            c.send_seq = ack;
            c.send_ack = seq.wrapping_add(1);
            c.state = TCP_ESTABLISHED;
            c.connected = true;
            out.push(ctl_segment(c, TCP_ACK));
        }
    } else if c.state == TCP_ESTABLISHED {
        let plen = payload.len() as u32;
        if payload.len() > 0 {
            ring_store(c, payload);
            c.send_ack = seq.wrapping_add(plen);
            out.push(ctl_segment(c, TCP_ACK));
        }
        if flags & TCP_FIN != 0 {
            c.send_ack = seq.wrapping_add(plen).wrapping_add(1);
            c.fin_received = true;
            c.state = TCP_TIME_WAIT;
            out.push(ctl_segment(c, TCP_ACK));
        }
    } else if c.state == TCP_FIN_WAIT_1 {
        if flags & TCP_ACK != 0 {
            if flags & TCP_FIN != 0 {
                c.send_ack = seq.wrapping_add(1);
                c.state = TCP_TIME_WAIT;
                out.push(ctl_segment(c, TCP_ACK));
            } else {
                c.state = TCP_FIN_WAIT_2;
            }
        }
    } else if c.state == TCP_FIN_WAIT_2 {
        if flags & TCP_FIN != 0 {
            c.send_ack = seq.wrapping_add(1);
            c.state = TCP_TIME_WAIT;
            c.fin_received = true;
            out.push(ctl_segment(c, TCP_ACK));
        }
    }
    proof {
        assert(segs_view(out@) =~= rx_conn(old(c).view(), seq, ack, flags, payload@).1);
    }
    out
}

fn reset_segment(src_ip: u32, sport: u16, dport: u16, seq: u32, ack: u32, flags: u8, plen: u32) -> (out: Vec<Segment>)
    ensures
        segs_view(out@) == rst_reply(src_ip, sport, dport, seq, ack, flags, plen),
{
    let mut out: Vec<Segment> = Vec::new();
    if flags & TCP_RST == 0 {
        if flags & TCP_ACK != 0 {
            out.push(Segment { remote_ip: src_ip, src_port: dport, dst_port: sport, seq: ack, ack: 0, flags: TCP_RST, data: Vec::new() });
        } else {
            let mut a = seq.wrapping_add(plen);
            if flags & TCP_SYN != 0 {
                a = a.wrapping_add(1);
            }
            if flags & TCP_FIN != 0 {
                a = a.wrapping_add(1);
            }
            out.push(Segment { remote_ip: src_ip, src_port: dport, dst_port: sport, seq: 0, ack: a, flags: TCP_RST | TCP_ACK, data: Vec::new() });
        }
    }
    assert(segs_view(out@) =~= rst_reply(src_ip, sport, dport, seq, ack, flags, plen));
    out
}

impl Tcp {
    /// Index of the connection in use with this remote address and ports,
    /// or -1.
    pub fn tcp_find_conn(&self, remote_ip: u32, remote_port: u16, local_port: u16) -> (r: i32)
        requires
            self.wf(),
        ensures
            match find_conn(self.conns(), TCP_MAX_CONNS as int, remote_ip, remote_port, local_port) {
                Some(i) => r == i,
                None => r == -1,
            },
            -1 <= r < TCP_MAX_CONNS,
    {
        proof { lemma_find_conn_range(self.conns(), TCP_MAX_CONNS as int, remote_ip, remote_port, local_port); }
        let mut i: usize = 0;
        while i < TCP_MAX_CONNS
            invariant
                i <= TCP_MAX_CONNS,
                self.wf(),
                find_conn(self.conns(), i as int, remote_ip, remote_port, local_port) is None,
            decreases TCP_MAX_CONNS - i,
        {
            let c = &self.conns[i];
            if c.in_use && c.remote_ip == remote_ip && c.remote_port == remote_port && c.local_port == local_port {
                proof { lemma_find_conn_stable(self.conns(), i + 1, TCP_MAX_CONNS as int, remote_ip, remote_port, local_port); }
                return i as i32;
            }
            i = i + 1;
        }
        -1
    }

    /// Handle an incoming TCP segment from `src_ip`: update the matching
    /// connection and return the segments to send in answer.
    pub fn rx(&mut self, src_ip: u32, data: &[u8]) -> (out: Vec<Segment>)
        requires
            old(self).wf(),
            data@.len() <= 65535,
        ensures
            final(self).wf(),
            final(self).next_port() == old(self).next_port(),
            final(self).conns() == rx_spec(old(self).conns(), src_ip, data@).0,
            segs_view(out@) == rx_spec(old(self).conns(), src_ip, data@).1,
    {
        if data.len() < TCP_HEADER_LEN {
            return Vec::new();
        }
        if tcp_checksum(src_ip, NET_IP_ADDR, data) != 0 {
            return Vec::new();
        }
        let hdr_len = ((data[12] / 16) as usize) * 4;
        if hdr_len < TCP_HEADER_LEN || hdr_len > data.len() {
            return Vec::new();
        }
        let sport = read_be16(data, 0);
        let dport = read_be16(data, 2);
        let seq = read_be32(data, 4);
        let ack = read_be32(data, 8);
        let flags = data[13];
        let payload = &data[hdr_len..data.len()];
        assert(payload@ =~= data@.subrange(data_offset_bytes(data@[12]), data@.len() as int));
        let idx = self.tcp_find_conn(src_ip, sport, dport);
        assert(self.conns().len() == TCP_MAX_CONNS);
        if idx < 0 {
            assert(self.conns().len() == TCP_MAX_CONNS);
            assert(self.conns() == old(self).conns());
            proof { lemma_find_conn_range(self.conns(), TCP_MAX_CONNS as int, src_ip, sport, dport); }
            return reset_segment(src_ip, sport, dport, seq, ack, flags, payload.len() as u32);
        }
        let i = idx as usize;
        let mut c = self.take(i);
        let out = rx_conn_exec(&mut c, seq, ack, flags, payload);
        self.put(i, c);
        out
    }
}

proof fn lemma_find_conn_range(conns: Seq<ConnView>, n: int, ip: u32, rport: u16, lport: u16)
    ensures
        find_conn(conns, n, ip, rport, lport) matches Some(i) ==> 0 <= i < n,
    decreases n,
{
    if n > 0 {
        lemma_find_conn_range(conns, n - 1, ip, rport, lport);
    }
}

proof fn lemma_find_conn_stable(conns: Seq<ConnView>, a: int, b: int, ip: u32, rport: u16, lport: u16)
    requires
        0 <= a <= b,
        find_conn(conns, a, ip, rport, lport) is Some,
    ensures
        find_conn(conns, b, ip, rport, lport) == find_conn(conns, a, ip, rport, lport),
    decreases b - a,
{
    if b > a {
        lemma_find_conn_stable(conns, a, b - 1, ip, rport, lport);
    }
}


/// The connection that `connect` sets up: in use, SYN sent, addressed to
/// the remote end from the given local port, initial sequence number
/// `ticks * 12345 + 1` (wrapping), empty receive buffer.
pub open spec fn new_conn(remote_ip: u32, remote_port: u16, local_port: u16, ticks: u32) -> ConnView {
    ConnView {
        in_use: true,
        state: TCP_SYN_SENT,
        remote_ip,
        remote_port,
        local_port,
        send_seq: wadd(vstd::wrapping::u32_specs::wrapping_mul(ticks, 12345), 1),
        ..fresh_conn()
    }
}

/// Index of the first unused slot among the first `n`.
pub open spec fn first_free(conns: Seq<ConnView>, n: int) -> Option<int>
    decreases n,
{
    if n <= 0 {
        None
    } else {
        match first_free(conns, n - 1) {
            Some(i) => Some(i),
            None => if !conns[n - 1].in_use { Some(n - 1) } else { None },
        }
    }
}

proof fn lemma_first_free_range(conns: Seq<ConnView>, n: int)
    ensures
        first_free(conns, n) matches Some(i) ==> 0 <= i < n,
    decreases n,
{
    if n > 0 {
        lemma_first_free_range(conns, n - 1);
    }
}

proof fn lemma_first_free_stable(conns: Seq<ConnView>, a: int, b: int)
    requires
        0 <= a <= b,
        first_free(conns, a) is Some,
    ensures
        first_free(conns, b) == first_free(conns, a),
    decreases b - a,
{
    if b > a {
        lemma_first_free_stable(conns, a, b - 1);
    }
}

/// The local port handed out after `p`: the next one, skipping 0 (which
/// restarts at 49152).
pub open spec fn port_after(p: u16) -> u16 {
    if vstd::wrapping::u16_specs::wrapping_add(p, 1) == 0 { TCP_FIRST_PORT } else { vstd::wrapping::u16_specs::wrapping_add(p, 1) }
}

/// Whether `conn_id` names a connection slot.
pub open spec fn valid_id(conn_id: i32) -> bool {
    0 <= conn_id < TCP_MAX_CONNS
}

impl Tcp {
    /// Index of a free connection slot, or -1.
    pub fn tcp_alloc_conn(&self) -> (r: i32)
        requires
            self.wf(),
        ensures
            match first_free(self.conns(), TCP_MAX_CONNS as int) {
                Some(i) => r == i,
                None => r == -1,
            },
            -1 <= r < TCP_MAX_CONNS,
    {
        proof { lemma_first_free_range(self.conns(), TCP_MAX_CONNS as int); }
        let mut i: usize = 0;
        while i < TCP_MAX_CONNS
            invariant
                i <= TCP_MAX_CONNS,
                self.wf(),
                first_free(self.conns(), i as int) is None,
            decreases TCP_MAX_CONNS - i,
        {
            if !self.conns[i].in_use {
                proof { lemma_first_free_stable(self.conns(), i + 1, TCP_MAX_CONNS as int); }
                return i as i32;
            }
            i = i + 1;
        }
        -1
    }

    /// Open a connection: set up a free slot (see `new_conn`), advance the
    /// local port, and return the slot with the SYN to send.  -1 and no
    /// change when every slot is in use.  Waiting for the answer, resending
    /// the SYN and giving up are the caller's (see `syn_segment`,
    /// `is_connected`, `connect_timeout`).
    pub fn connect(&mut self, remote_ip: u32, remote_port: u16, ticks: u32) -> (r: (i32, Option<Segment>))
        requires
            old(self).wf(),
        ensures
            final(self).wf(),
            match first_free(old(self).conns(), TCP_MAX_CONNS as int) {
                None => r.0 == -1 && r.1 is None && final(self).conns() == old(self).conns()
                    && final(self).next_port() == old(self).next_port(),
                Some(i) => {
                    let c = new_conn(remote_ip, remote_port, old(self).next_port(), ticks);
                    &&& r.0 == i
                    &&& r.1 matches Some(s) && s.view() == ctl_seg(c, TCP_SYN)
                    &&& final(self).conns() == old(self).conns().update(i, c)
                    &&& final(self).next_port() == port_after(old(self).next_port())
                },
            },
    {
        proof { lemma_first_free_range(self.conns(), TCP_MAX_CONNS as int); }
        let idx = self.tcp_alloc_conn();
        if idx < 0 {
            return (-1, None);
        }
        let i = idx as usize;
        let mut c = TcpConn::new();
        c.in_use = true;
        c.state = TCP_SYN_SENT;
        c.remote_ip = remote_ip;
        c.remote_port = remote_port;
        c.local_port = self.next_local_port;
        self.next_local_port = self.next_local_port.wrapping_add(1);
        if self.next_local_port == 0 {
            self.next_local_port = TCP_FIRST_PORT;
        }
        c.send_seq = ticks.wrapping_mul(12345).wrapping_add(1);
        let seg = ctl_segment(&c, TCP_SYN);
        let _old = self.take(i);
        self.put(i, c);
        (idx, Some(seg))
    }

    /// The SYN of a connection being opened, for retransmission.
    pub fn syn_segment(&self, conn_id: i32) -> (r: Option<Segment>)
        requires
            self.wf(),
        ensures
            !valid_id(conn_id) ==> r is None,
            valid_id(conn_id) ==> (r matches Some(s) && s.view() == ctl_seg(self.conns()[conn_id as int], TCP_SYN)),
    {
        if conn_id < 0 || conn_id as usize >= TCP_MAX_CONNS {
            return None;
        }
        Some(ctl_segment(&self.conns[conn_id as usize], TCP_SYN))
    }

    /// Whether the handshake of a connection has completed.
    pub fn is_connected(&self, conn_id: i32) -> (r: bool)
        requires
            self.wf(),
        ensures
            r == (valid_id(conn_id) && self.conns()[conn_id as int].connected),
    {
        if conn_id < 0 || conn_id as usize >= TCP_MAX_CONNS {
            return false;
        }
        self.conns[conn_id as usize].connected
    }

    /// Give up on a connection whose handshake timed out: the slot becomes
    /// free and closed.
    pub fn connect_timeout(&mut self, conn_id: i32)
        requires
            old(self).wf(),
        ensures
            final(self).wf(),
            final(self).next_port() == old(self).next_port(),
            !valid_id(conn_id) ==> final(self).conns() == old(self).conns(),
            valid_id(conn_id) ==> final(self).conns() == old(self).conns().update(
                conn_id as int,
                ConnView { in_use: false, state: TCP_CLOSED, ..old(self).conns()[conn_id as int] },
            ),
    {
        if conn_id < 0 || conn_id as usize >= TCP_MAX_CONNS {
            return;
        }
        let i = conn_id as usize;
        let mut c = self.take(i);
        c.in_use = false;
        c.state = TCP_CLOSED;
        self.put(i, c);
    }

    /// Send data on an established connection: the ACK|PSH segment carrying
    /// it, after which the send sequence number advances by its length
    /// (wrapping).  `None` (and no change) for an unknown id, an unused
    /// slot or a connection that is not established.
    pub fn send(&mut self, conn_id: i32, data: &[u8]) -> (r: Option<Segment>)
        requires
            old(self).wf(),
            data@.len() <= u16::MAX,
        ensures
            final(self).wf(),
            final(self).next_port() == old(self).next_port(),
            !(valid_id(conn_id) && old(self).conns()[conn_id as int].in_use
                && old(self).conns()[conn_id as int].state == TCP_ESTABLISHED) ==> r is None
                && final(self).conns() == old(self).conns(),
            valid_id(conn_id) && old(self).conns()[conn_id as int].in_use
                && old(self).conns()[conn_id as int].state == TCP_ESTABLISHED ==> {
                let c = old(self).conns()[conn_id as int];
                &&& r matches Some(s) && s.view() == SegView { flags: (TCP_ACK | TCP_PSH) as u8, data: data@, ..ctl_seg(c, 0) }
                &&& final(self).conns() == old(self).conns().update(
                    conn_id as int,
                    ConnView { send_seq: wadd(c.send_seq, data@.len() as u32), ..c },
                )
            },
    {
        if conn_id < 0 || conn_id as usize >= TCP_MAX_CONNS {
            return None;
        }
        let i = conn_id as usize;
        if !self.conns[i].in_use || self.conns[i].state != TCP_ESTABLISHED {
            return None;
        }
        let mut c = self.take(i);
        let mut v: Vec<u8> = Vec::new();
        push_all(&mut v, data);
        assert(v@ =~= data@);
        let seg = Segment {
            remote_ip: c.remote_ip,
            src_port: c.local_port,
            dst_port: c.remote_port,
            seq: c.send_seq,
            ack: c.send_ack,
            flags: TCP_ACK | TCP_PSH,
            data: v,
        };
        c.send_seq = c.send_seq.wrapping_add(data.len() as u32);
        self.put(i, c);
        Some(seg)
    }

    /// Whether a blocking receive would stop waiting: the id is not a slot
    /// in use, or data is buffered, or the peer has closed.
    pub fn recv_ready(&self, conn_id: i32) -> (r: bool)
        requires
            self.wf(),
        ensures
            r == (!valid_id(conn_id) || !self.conns()[conn_id as int].in_use
                || self.conns()[conn_id as int].rx_head != self.conns()[conn_id as int].rx_tail
                || self.conns()[conn_id as int].fin_received),
    {
        if conn_id < 0 || conn_id as usize >= TCP_MAX_CONNS {
            return true;
        }
        let c = &self.conns[conn_id as usize];
        !c.in_use || c.rx_head != c.rx_tail || c.fin_received
    }

    /// Take up to `max_len` buffered bytes from a connection, oldest first.
    /// Nothing for an unknown id, an unused slot or an empty buffer.
    pub fn recv(&mut self, conn_id: i32, max_len: u16) -> (r: Vec<u8>)
        requires
            old(self).wf(),
        ensures
            final(self).wf(),
            final(self).next_port() == old(self).next_port(),
            !(valid_id(conn_id) && old(self).conns()[conn_id as int].in_use) ==> r@ == Seq::<u8>::empty()
                && final(self).conns() == old(self).conns(),
            valid_id(conn_id) && old(self).conns()[conn_id as int].in_use ==> {
                let c = old(self).conns()[conn_id as int];
                let avail = ring_avail(c.rx_head as int, c.rx_tail as int);
                let n = if avail > max_len { max_len as int } else { avail };
                &&& r@ == ring_read(c.rx_buf, c.rx_tail as int, n)
                &&& final(self).conns() == old(self).conns().update(
                    conn_id as int,
                    ConnView { rx_tail: ((c.rx_tail + n) % (TCP_RX_BUF_SIZE as int)) as u16, ..c },
                )
            },
    {
        if conn_id < 0 || conn_id as usize >= TCP_MAX_CONNS {
            return Vec::new();
        }
        let i = conn_id as usize;
        if !self.conns[i].in_use {
            return Vec::new();
        }
        let mut c = self.take(i);
        let head = c.rx_head as usize;
        let tail = c.rx_tail as usize;
        let avail = if head >= tail { head - tail } else { TCP_RX_BUF_SIZE - tail + head };
        let count = if avail > max_len as usize { max_len as usize } else { avail };
        let mut out: Vec<u8> = Vec::new();
        let mut j: usize = 0;
        while j < count
            invariant
                j <= count,
                count < TCP_RX_BUF_SIZE,
                tail < TCP_RX_BUF_SIZE,
                conn_wf(c.view()),
                out@ == ring_read(c.rx_buf@, tail as int, j as int),
            decreases count - j,
        {
            out.push(c.rx_buf[(tail + j) % TCP_RX_BUF_SIZE]);
            j = j + 1;
            assert(out@ =~= ring_read(c.rx_buf@, tail as int, j as int));
        }
        c.rx_tail = ((tail + count) % TCP_RX_BUF_SIZE) as u16;
        self.put(i, c);
        out
    }

    /// Start closing a connection: for an established connection or one
    /// still opening, the FIN|ACK segment to send, after which the send
    /// sequence number advances by one and the state is FIN_WAIT_1.
    /// Waiting for the peer is the caller's; `close_finish` frees the slot.
    pub fn close(&mut self, conn_id: i32) -> (r: Option<Segment>)
        requires
            old(self).wf(),
        ensures
            final(self).wf(),
            final(self).next_port() == old(self).next_port(),
            !(valid_id(conn_id) && old(self).conns()[conn_id as int].in_use
                && (old(self).conns()[conn_id as int].state == TCP_ESTABLISHED
                || old(self).conns()[conn_id as int].state == TCP_SYN_SENT)) ==> r is None
                && final(self).conns() == old(self).conns(),
            valid_id(conn_id) && old(self).conns()[conn_id as int].in_use
                && (old(self).conns()[conn_id as int].state == TCP_ESTABLISHED
                || old(self).conns()[conn_id as int].state == TCP_SYN_SENT) ==> {
                let c = old(self).conns()[conn_id as int];
                &&& r matches Some(s) && s.view() == ctl_seg(c, (TCP_FIN | TCP_ACK) as u8)
                &&& final(self).conns() == old(self).conns().update(
                    conn_id as int,
                    ConnView { send_seq: wadd(c.send_seq, 1), state: TCP_FIN_WAIT_1, ..c },
                )
            },
    {
        if conn_id < 0 || conn_id as usize >= TCP_MAX_CONNS {
            return None;
        }
        let i = conn_id as usize;
        if !self.conns[i].in_use {
            return None;
        }
        if self.conns[i].state != TCP_ESTABLISHED && self.conns[i].state != TCP_SYN_SENT {
            return None;
        }
        let mut c = self.take(i);
        let seg = ctl_segment(&c, TCP_FIN | TCP_ACK);
        c.send_seq = c.send_seq.wrapping_add(1);
        c.state = TCP_FIN_WAIT_1;
        self.put(i, c);
        Some(seg)
    }

    /// The state of a connection slot (-1 for an unknown id).
    pub fn state_of(&self, conn_id: i32) -> (r: i32)
        requires
            self.wf(),
        ensures
            !valid_id(conn_id) ==> r == -1,
            valid_id(conn_id) ==> r == self.conns()[conn_id as int].state,
    {
        if conn_id < 0 || conn_id as usize >= TCP_MAX_CONNS {
            return -1;
        }
        self.conns[conn_id as usize].state
    }

    /// Finish closing: a slot in use becomes free and closed.
    pub fn close_finish(&mut self, conn_id: i32)
        requires
            old(self).wf(),
        ensures
            final(self).wf(),
            final(self).next_port() == old(self).next_port(),
            !(valid_id(conn_id) && old(self).conns()[conn_id as int].in_use) ==> final(self).conns() == old(self).conns(),
            valid_id(conn_id) && old(self).conns()[conn_id as int].in_use ==> final(self).conns() == old(self).conns().update(
                conn_id as int,
                ConnView { in_use: false, state: TCP_CLOSED, ..old(self).conns()[conn_id as int] },
            ),
    {
        if conn_id < 0 || conn_id as usize >= TCP_MAX_CONNS {
            return;
        }
        let i = conn_id as usize;
        if !self.conns[i].in_use {
            return;
        }
        let mut c = self.take(i);
        c.in_use = false;
        c.state = TCP_CLOSED;
        self.put(i, c);
    }
}

proof fn lemma_ring_fill(buf: Seq<u8>, tail: int, data: Seq<u8>, j: int)
    requires
        0 <= tail < TCP_RX_BUF_SIZE,
        buf.len() == TCP_RX_BUF_SIZE,
        data.len() < TCP_RX_BUF_SIZE,
        0 <= j <= data.len(),
        forall|k: int| 0 <= k < j ==> buf[(tail + k) % 4096] == data[k],
    ensures
        ring_push(buf, (tail + j) % 4096, tail, data, j).1 == (tail + data.len()) % 4096,
        ring_push(buf, (tail + j) % 4096, tail, data, j).0.len() == TCP_RX_BUF_SIZE,
        forall|k: int| 0 <= k < data.len() ==> ring_push(buf, (tail + j) % 4096, tail, data, j).0[(tail + k) % 4096] == data[k],
    decreases data.len() - j,
{
    if j < data.len() {
        let head = (tail + j) % 4096;
        assert((head + 1) % 4096 == (tail + j + 1) % 4096);
        assert((tail + j + 1) % 4096 != tail);
        let b2 = buf.update(head, data[j]);
        assert forall|k: int| 0 <= k < j + 1 implies b2[(tail + k) % 4096] == data[k] by {
            if k < j {
                assert((tail + k) % 4096 != (tail + j) % 4096);
            }
        }
        lemma_ring_fill(b2, tail, data, j + 1);
    }
}

/// First in, first out: bytes stored into an empty receive ring are what a
/// read of that many bytes from its tail gives back, and the ring then
/// holds exactly that many bytes.
pub proof fn lemma_ring_fifo(buf: Seq<u8>, pos: int, data: Seq<u8>)
    requires
        0 <= pos < TCP_RX_BUF_SIZE,
        buf.len() == TCP_RX_BUF_SIZE,
        data.len() < TCP_RX_BUF_SIZE,
    ensures
        ring_avail(ring_push(buf, pos, pos, data, 0).1, pos) == data.len(),
        ring_read(ring_push(buf, pos, pos, data, 0).0, pos, data.len() as int) == data,
{
    assert((pos + 0) % 4096 == pos);
    lemma_ring_fill(buf, pos, data, 0);
    let (b, h) = ring_push(buf, pos, pos, data, 0);
    assert(ring_read(b, pos, data.len() as int) =~= data);
}

/// The handshake: a valid segment from the remote end of a connection
/// whose SYN is out, carrying SYN and ACK (and no RST) and acknowledging
/// the SYN, establishes the connection and is answered with one ACK.
pub proof fn lemma_syn_ack_establishes(conns: Seq<ConnView>, i: int, d: Seq<u8>)
    requires
        find_conn(conns, conns.len() as int, conns[i].remote_ip, get_be16(d, 0), get_be16(d, 2)) == Some(i),
        conns[i].state == TCP_SYN_SENT,
        seg_ok(conns[i].remote_ip, d),
        d[13] & TCP_RST == 0,
        d[13] & (TCP_SYN | TCP_ACK) == (TCP_SYN | TCP_ACK),
        get_be32(d, 8) == wadd(conns[i].send_seq, 1),
    ensures
        ({
            let (conns2, out) = rx_spec(conns, conns[i].remote_ip, d);
            let c = conns2[i];
            &&& c.state == TCP_ESTABLISHED
            &&& c.connected
            &&& c.send_seq == get_be32(d, 8)
            &&& c.send_ack == wadd(get_be32(d, 4), 1)
            &&& out == seq![ctl_seg(c, TCP_ACK)]
            &&& forall|j: int| 0 <= j < conns.len() && j != i ==> conns2[j] == conns[j]
        }),
{
    lemma_find_conn_range(conns, conns.len() as int, conns[i].remote_ip, get_be16(d, 0), get_be16(d, 2));
}


/// A FIN is acknowledged: a valid segment carrying FIN (and no RST) for a
/// connection that is established, or closing (in FIN_WAIT_1 with the ACK
/// of our FIN, or in FIN_WAIT_2), is answered last by an ACK segment of
/// that connection whose acknowledgment number covers the FIN (the
/// sequence number, the data when established, and one), and the
/// connection moves to TIME_WAIT.
pub proof fn lemma_fin_acknowledged(conns: Seq<ConnView>, i: int, d: Seq<u8>)
    requires
        find_conn(conns, conns.len() as int, conns[i].remote_ip, get_be16(d, 0), get_be16(d, 2)) == Some(i),
        seg_ok(conns[i].remote_ip, d),
        d[13] & TCP_RST == 0,
        d[13] & TCP_FIN != 0,
        conns[i].state == TCP_ESTABLISHED || (conns[i].state == TCP_FIN_WAIT_1 && d[13] & TCP_ACK != 0)
            || conns[i].state == TCP_FIN_WAIT_2,
    ensures
        ({
            let (conns2, out) = rx_spec(conns, conns[i].remote_ip, d);
            let seq = get_be32(d, 4);
            let plen = (d.len() - data_offset_bytes(d[12])) as u32;
            let c = conns2[i];
            &&& out.len() >= 1
            &&& out.last().flags == TCP_ACK
            &&& out.last().ack == if conns[i].state == TCP_ESTABLISHED { wadd(wadd(seq, plen), 1) } else { wadd(seq, 1) }
            &&& out.last().remote_ip == conns[i].remote_ip
            &&& out.last().src_port == conns[i].local_port
            &&& out.last().dst_port == conns[i].remote_port
            &&& out.last().seq == conns[i].send_seq
            &&& c.state == TCP_TIME_WAIT
            &&& c.send_ack == out.last().ack
            &&& forall|j: int| 0 <= j < conns.len() && j != i ==> conns2[j] == conns[j]
        }),
{
    lemma_find_conn_range(conns, conns.len() as int, conns[i].remote_ip, get_be16(d, 0), get_be16(d, 2));
    let hl = data_offset_bytes(d[12]);
    let payload = d.subrange(hl, d.len() as int);
    assert(payload.len() == d.len() - hl);
}

} // verus!
