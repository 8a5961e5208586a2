//! DNS stub resolver (A records only): builds queries for the QEMU default
//! DNS server and reads the first A record out of the matching response.

use vstd::prelude::*;
use crate::net::{be16, be32, get_be16, get_be32, be16_bytes, read_be16, read_be32, push_all, lemma_be16_roundtrip, lemma_be32_roundtrip};
use crate::string::{cstr, cstr_len, lemma_cstr, strlen};
use crate::udp::UdpTable;

verus! {

pub const DNS_SERVER: u32 = 0x0A000203;
pub const DNS_PORT: u16 = 53;
pub const DNS_LOCAL: u16 = 1024;
pub const DNS_MAX_RESP: usize = 512;
pub const DNS_HEADER_LEN: usize = 12;
pub const DNS_TYPE_A: u16 = 1;
pub const DNS_CLASS_IN: u16 = 1;
/// Longest hostname accepted.
pub const DNS_MAX_NAME: usize = 253;
/// Ticks (at 100 Hz) to wait for a response.
pub const DNS_WAIT_TICKS: u32 = 200;
/// Compression pointers followed before a name is declared circular.
pub const DNS_MAX_HOPS: i32 = 64;

// ---- Names ----

/// Index of the first '.' at or after `i`, or the length.
pub open spec fn dot_from(s: Seq<u8>, i: int) -> int
    decreases s.len() - i,
{
    if i < 0 || i >= s.len() {
        s.len() as int
    } else if s[i] == 46 {
        i
    } else {
        dot_from(s, i + 1)
    }
}

pub proof fn lemma_dot_from(s: Seq<u8>, i: int)
    requires
        0 <= i <= s.len(),
    ensures
        i <= dot_from(s, i) <= s.len(),
        forall|j: int| i <= j < dot_from(s, i) ==> s[j] != 46,
        dot_from(s, i) < s.len() ==> s[dot_from(s, i)] == 46,
    decreases s.len() - i,
{
    if i < s.len() && s[i] != 46 {
        lemma_dot_from(s, i + 1);
    }
}

/// Label encoding of the dotted name `s` from position `p`: each label as
/// its length byte and its bytes, then a zero byte.  `None` when a label is
/// empty or longer than 63 bytes.
pub open spec fn encode_from(s: Seq<u8>, p: int) -> Option<Seq<u8>>
    decreases s.len() - p,
{
    if p < 0 || p >= s.len() {
        Some(seq![0u8])
    } else {
        let d = dot_from(s, p);
        let l = d - p;
        if l <= 0 || l > 63 {
            None
        } else {
            proof { lemma_dot_from(s, p); }
            let next = if d < s.len() { d + 1 } else { d };
            match encode_from(s, next) {
                Some(t) => Some(seq![l as u8] + s.subrange(p, d) + t),
                None => None,
            }
        }
    }
}

/// Encode the hostname held (as a C string) in `name` into DNS label
/// format: "google.com" gives "\x06google\x03com\x00".
pub fn dns_encode_name(name: &[u8]) -> (r: Option<Vec<u8>>)
    ensures
        r matches Some(v) ==> encode_from(cstr(name@), 0) == Some(v@),
        r is None ==> encode_from(cstr(name@), 0) is None,
{
    let n = strlen(name);
    proof { lemma_cstr(name@); }
    let ghost s = cstr(name@);
    let mut out: Vec<u8> = Vec::new();
    let mut p: usize = 0;
    while p < n
        invariant
            s == cstr(name@),
            n == s.len(),
            n <= name@.len(),
            forall|j: int| 0 <= j < n ==> name@[j] == s[j],
            p <= n,
            encode_from(s, 0) == (match encode_from(s, p as int) {
                Some(t) => Some(out@ + t),
                None => None::<Seq<u8>>,
            }),
        decreases n - p,
    {
        let mut dot = p;
        while dot < n && name[dot] != 46
            invariant
                p <= dot <= n,
                n == s.len(),
                n <= name@.len(),
                forall|j: int| 0 <= j < n ==> name@[j] == s[j],
                dot_from(s, dot as int) == dot_from(s, p as int),
            decreases n - dot,
        {
            dot = dot + 1;
        }
        proof {
            lemma_dot_from(s, p as int);
            if dot < n {
                assert(name@[dot as int] == s[dot as int]);
            }
            assert(dot_from(s, dot as int) == dot);
        }
        let len = dot - p;
        if len == 0 || len > 63 {
            assert(encode_from(s, p as int) is None);
            return None;
        }
        let ghost old_out = out@;
        out.push(len as u8);
        let mut k = p;
        while k < dot
            invariant
                p <= k <= dot <= n,
                n == s.len(),
                n <= name@.len(),
                forall|j: int| 0 <= j < n ==> name@[j] == s[j],
                out@ == old_out.push(len as u8) + s.subrange(p as int, k as int),
            decreases dot - k,
        {
            assert(name@[k as int] == s[k as int]);
            out.push(name[k]);
            k = k + 1;
            assert(out@ =~= old_out.push(len as u8) + s.subrange(p as int, k as int));
        }
        let next = if dot < n { dot + 1 } else { dot };
        proof {
            assert(old_out.push(len as u8) + s.subrange(p as int, dot as int)
                =~= old_out + (seq![len as u8] + s.subrange(p as int, dot as int)));
            match encode_from(s, next as int) {
                Some(t) => {
                    assert(out@ + t =~= old_out + (seq![len as u8] + s.subrange(p as int, dot as int) + t));
                },
                None => {},
            }
        }
        p = next;
    }
    out.push(0);
    Some(out)
}

/// Distance from `off` to the end of a packet of length `len`.
pub open spec fn dist(len: int, off: int) -> nat {
    if off < len { (len - off) as nat } else { 0 }
}

/// Bytes a name starting at `start` occupies, read from position `off`
/// with `hops` compression pointers followed so far; `count` is fixed at
/// the first pointer.  -1 for a name that runs off the packet or follows
/// more than 64 pointers.
pub open spec fn skip_from(p: Seq<u8>, off: int, start: int, jumped: bool, count: int, hops: int) -> int
    decreases 65 - hops, dist(p.len() as int, off),
{
    if off < 0 || off >= p.len() {
        -1
    } else {
        let b = p[off];
        if b == 0 {
            if !jumped { off - start + 1 } else { count }
        } else if b >= 0xC0 {
            if hops + 1 > DNS_MAX_HOPS {
                -1
            } else if off + 1 >= p.len() {
                -1
            } else {
                let count2 = if !jumped { off - start + 2 } else { count };
                skip_from(p, (b % 64) as int * 256 + p[off + 1] as int, start, true, count2, hops + 1)
            }
        } else {
            skip_from(p, off + 1 + b, start, jumped, count, hops)
        }
    }
}

/// Bytes the name at `off` occupies in the packet (a compression pointer
/// counts as its two bytes), or -1 for a malformed name.
pub open spec fn skip_name(p: Seq<u8>, off: int) -> int {
    skip_from(p, off, off, false, 0, 0)
}

proof fn lemma_skip_from_bound(p: Seq<u8>, off: int, start: int, jumped: bool, count: int, hops: int)
    requires
        0 <= start <= p.len(),
        jumped ==> 2 <= count <= p.len() - start + 1,
        !jumped ==> start <= off,
    ensures
        skip_from(p, off, start, jumped, count, hops) == -1
            || 1 <= skip_from(p, off, start, jumped, count, hops) <= p.len() - start + 1,
    decreases 65 - hops, dist(p.len() as int, off),
{
    if 0 <= off < p.len() {
        let b = p[off];
        if b == 0 {
        } else if b >= 0xC0 {
            if hops + 1 <= DNS_MAX_HOPS && off + 1 < p.len() {
                let count2 = if !jumped { off - start + 2 } else { count };
                lemma_skip_from_bound(p, (b % 64) as int * 256 + p[off + 1] as int, start, true, count2, hops + 1);
            }
        } else {
            lemma_skip_from_bound(p, off + 1 + b, start, jumped, count, hops);
        }
    }
}

/// Skip a name in a packet, following compression pointers.  Returns the
/// number of bytes it occupies from `offset`, or -1 when it is malformed.
pub fn dns_skip_name(pkt: &[u8], offset: i32) -> (r: i32)
    requires
        pkt@.len() <= 65535,
        0 <= offset,
    ensures
        r == skip_name(pkt@, offset as int),
{
    let len = pkt.len() as i32;
    let start = offset;
    let mut off = offset;
    let mut jumped = false;
    let mut count: i32 = 0;
    let mut hops: i32 = 0;
    while off < len
        invariant
            len == pkt@.len(),
            len <= 65535,
            start == offset,
            0 <= start,
            0 <= off,
            !jumped ==> start <= off,
            0 <= hops <= DNS_MAX_HOPS,
            skip_from(pkt@, off as int, start as int, jumped, count as int, hops as int) == skip_name(pkt@, start as int),
        decreases 65 - hops, dist(len as int, off as int),
    {
        let b = pkt[off as usize];
        assert(b == pkt@[off as int]);
        if b == 0 {
            if !jumped {
                return (off - start) + 1;
            } else {
                return count;
            }
        }
        if b >= 0xC0 {
            hops = hops + 1;
            if hops > DNS_MAX_HOPS {
                return -1;
            }
            if off + 1 >= len {
                return -1;
            }
            if !jumped {
                count = (off - start) + 2;
                jumped = true;
            }
            off = ((b % 64) as i32) * 256 + (pkt[off as usize + 1] as i32);
        } else {
            off = off + 1 + b as i32;
        }
    }
    -1
}

// ---- Queries ----

/// The query for name encoding `enc` with identifier `id`: header with
/// recursion desired and one question, the name, type A, class IN.
pub open spec fn dns_query(id: u16, enc: Seq<u8>) -> Seq<u8> {
    be16(id) + be16(0x0100) + be16(1) + seq![0u8, 0u8, 0u8, 0u8, 0u8, 0u8] + enc + seq![0u8, 1u8, 0u8, 1u8]
}

// ---- Responses ----

/// Position after `k` questions starting at `off`, or -1.
pub open spec fn skip_questions(d: Seq<u8>, off: int, k: nat) -> int
    decreases k,
{
    if k == 0 {
        off
    } else {
        let s = skip_name(d, off);
        if s < 0 {
            -1
        } else if off + s + 4 > d.len() {
            -1
        } else {
            skip_questions(d, off + s + 4, (k - 1) as nat)
        }
    }
}

/// The address in the first A record (class IN, four bytes of data) among
/// `k` answers starting at `off`, if the records up to it are well formed.
pub open spec fn find_answer(d: Seq<u8>, off: int, k: nat) -> Option<u32>
    decreases k,
{
    if k == 0 {
        None
    } else {
        let s = skip_name(d, off);
        if s < 0 {
            None
        } else if off + s + 10 > d.len() {
            None
        } else {
            let o = off + s;
            let rdlen = get_be16(d, o + 8);
            if o + 10 + rdlen > d.len() {
                None
            } else if get_be16(d, o) == DNS_TYPE_A && get_be16(d, o + 2) == DNS_CLASS_IN && rdlen == 4 {
                Some(get_be32(d, o + 10))
            } else {
                find_answer(d, o + 10 + rdlen, (k - 1) as nat)
            }
        }
    }
}

/// The address a response gives for query `query_id`: it must hold a
/// header, be a response (QR set), carry the query's identifier, and have
/// well-formed questions before an A record.
pub open spec fn dns_response(d: Seq<u8>, query_id: u16) -> Option<u32> {
    if d.len() < DNS_HEADER_LEN || get_be16(d, 2) < 0x8000 || get_be16(d, 0) != query_id {
        None
    } else {
        let q = skip_questions(d, DNS_HEADER_LEN as int, get_be16(d, 4) as nat);
        if q < 0 {
            None
        } else {
            find_answer(d, q, get_be16(d, 6) as nat)
        }
    }
}

/// Resolver state: the identifier of the current query and the answer
/// received for it.
pub struct DnsState {
    pub query_id: u16,
    pub reply_ready: i32,
    pub reply_ip: u32,
    pub reply_id: u16,
}

/// What a resolver waiting for its answer is told to do.
pub enum DnsPoll {
    /// The answer arrived.
    Ready(u32),
    /// Halt until the next interrupt, then poll again.
    Wait,
    /// No answer within two seconds.
    Timeout,
}

/// Initialize the resolver and bind `handler` (which hands responses to
/// `DnsState::rx`) to the local DNS port.
pub fn init<H: Copy>(udp: &mut UdpTable<H>, handler: H) -> (r: (DnsState, i32))
    requires
        old(udp).wf(),
    ensures
        final(udp).wf(),
        r.0.query_id == 0 && r.0.reply_ready == 0,
        r.1 == 1 <==> (old(udp).ports@.contains(DNS_LOCAL) || old(udp).ports@.len() < crate::udp::UDP_MAX_BINDS),
        old(udp).ports@.contains(DNS_LOCAL) ==> final(udp).ports@ == old(udp).ports@,
        !old(udp).ports@.contains(DNS_LOCAL) && old(udp).ports@.len() < crate::udp::UDP_MAX_BINDS
            ==> final(udp).ports@ == old(udp).ports@.push(DNS_LOCAL) && final(udp).handlers@ == old(udp).handlers@.push(handler),
{
    let b = udp.bind(DNS_LOCAL, handler);
    (DnsState { query_id: 0, reply_ready: 0, reply_ip: 0, reply_id: 0 }, b)
}

impl DnsState {
    /// Start resolving the hostname held (as a C string) in `hostname`:
    /// a name longer than 253 bytes is refused with no change; otherwise
    /// the query identifier advances, any pending answer is dropped, and
    /// the query message to send to the server is returned (`None` when
    /// the name has an empty or over-long label).
    pub fn start_query(&mut self, hostname: &[u8]) -> (r: Option<Vec<u8>>)
        ensures
            cstr_len(hostname@) > DNS_MAX_NAME ==> r is None && *final(self) == *old(self),
            cstr_len(hostname@) <= DNS_MAX_NAME ==> ({
                let id = vstd::wrapping::u16_specs::wrapping_add(old(self).query_id, 1);
                &&& final(self).query_id == id
                &&& final(self).reply_ready == 0
                &&& final(self).reply_ip == old(self).reply_ip
                &&& final(self).reply_id == old(self).reply_id
                &&& (match encode_from(cstr(hostname@), 0) {
                    Some(enc) => r matches Some(q) && q@ == dns_query(id, enc),
                    None => r is None,
                })
            }),
    {
        if strlen(hostname) > DNS_MAX_NAME {
            return None;
        }
        self.query_id = self.query_id.wrapping_add(1);
        self.reply_ready = 0;
        match dns_encode_name(hostname) {
            None => None,
            Some(enc) => {
                let mut q: Vec<u8> = Vec::new();
                push_all(&mut q, &be16_bytes(self.query_id));
                push_all(&mut q, &be16_bytes(0x0100));
                push_all(&mut q, &be16_bytes(1));
                let mut i: usize = 0;
                while i < 6
                    invariant
                        i <= 6,
                        q@ == be16(self.query_id) + be16(0x0100) + be16(1) + Seq::new(i as nat, |j: int| 0u8),
                    decreases 6 - i,
                {
                    q.push(0);
                    i = i + 1;
                    assert(q@ =~= be16(self.query_id) + be16(0x0100) + be16(1) + Seq::new(i as nat, |j: int| 0u8));
                }
                push_all(&mut q, enc.as_slice());
                q.push(0);
                q.push(DNS_TYPE_A as u8);
                q.push(0);
                q.push(DNS_CLASS_IN as u8);
                assert(q@ =~= dns_query(self.query_id, enc@));
                Some(q)
            },
        }
    }

    /// Handle a UDP message from the server: when it is the response to
    /// the current query and holds an A record, record its address.
    pub fn rx(&mut self, data: &[u8])
        requires
            data@.len() <= 65535,
        ensures
            final(self).query_id == old(self).query_id,
            (match dns_response(data@, old(self).query_id) {
                Some(ip) => final(self).reply_ready == 1 && final(self).reply_ip == ip
                    && final(self).reply_id == old(self).query_id,
                None => *final(self) == *old(self),
            }),
    {
        let len = data.len();
        if len < DNS_HEADER_LEN {
            return;
        }
        let id = read_be16(data, 0);
        let flags = read_be16(data, 2);
        let qdcount = read_be16(data, 4);
        let ancount = read_be16(data, 6);
        if flags < 0x8000 {
            return;
        }
        if id != self.query_id {
            return;
        }
        let mut offset: usize = DNS_HEADER_LEN;
        let mut k: u16 = 0;
        while k < qdcount
            invariant
                len == data@.len(),
                len <= 65535,
                k <= qdcount,
                offset <= len,
                skip_questions(data@, DNS_HEADER_LEN as int, qdcount as nat)
                    == skip_questions(data@, offset as int, (qdcount - k) as nat),
                *self == *old(self),
                id == old(self).query_id,
                dns_response(data@, id) == (if skip_questions(data@, DNS_HEADER_LEN as int, qdcount as nat) < 0 {
                    None
                } else {
                    find_answer(data@, skip_questions(data@, DNS_HEADER_LEN as int, qdcount as nat), ancount as nat)
                }),
            decreases qdcount - k,
        {
            let skip = dns_skip_name(data, offset as i32);
            proof { lemma_skip_from_bound(data@, offset as int, offset as int, false, 0, 0); }
            if skip < 0 {
                return;
            }
            if offset + skip as usize + 4 > len {
                return;
            }
            offset = offset + skip as usize + 4;
            k = k + 1;
        }
        let mut k: u16 = 0;
        while k < ancount
            invariant
                len == data@.len(),
                len <= 65535,
                k <= ancount,
                offset <= len,
                skip_questions(data@, DNS_HEADER_LEN as int, qdcount as nat) >= 0,
                find_answer(data@, skip_questions(data@, DNS_HEADER_LEN as int, qdcount as nat), ancount as nat)
                    == find_answer(data@, offset as int, (ancount - k) as nat),
                *self == *old(self),
                id == old(self).query_id,
                dns_response(data@, id) == find_answer(data@, skip_questions(data@, DNS_HEADER_LEN as int, qdcount as nat), ancount as nat),
            decreases ancount - k,
        {
            let skip = dns_skip_name(data, offset as i32);
            proof { lemma_skip_from_bound(data@, offset as int, offset as int, false, 0, 0); }
            if skip < 0 {
                return;
            }
            let o = offset + skip as usize;
            if o + 10 > len {
                return;
            }
            let rtype = read_be16(data, o);
            let rclass = read_be16(data, o + 2);
            let rdlength = read_be16(data, o + 8);
            if o + 10 + rdlength as usize > len {
                return;
            }
            if rtype == DNS_TYPE_A && rclass == DNS_CLASS_IN && rdlength == 4 {
                self.reply_ip = read_be32(data, o + 10);
                self.reply_id = id;
                self.reply_ready = 1;
                return;
            }
            offset = o + 10 + rdlength as usize;
            k = k + 1;
        }
    }

    /// Check, at tick `now`, for the answer to the query sent at tick
    /// `start`: within 200 ticks an answer for the current query is taken
    /// (and marked read); after that the wait is over.
    pub fn poll(&mut self, start: u32, now: u32) -> (r: DnsPoll)
        ensures
            vstd::wrapping::u32_specs::wrapping_sub(now, start) >= DNS_WAIT_TICKS ==> r is Timeout && *final(self) == *old(self),
            vstd::wrapping::u32_specs::wrapping_sub(now, start) < DNS_WAIT_TICKS ==> ({
                let ready = old(self).reply_ready != 0 && old(self).reply_id == old(self).query_id;
                &&& ready ==> r == DnsPoll::Ready(old(self).reply_ip) && *final(self) == (DnsState { reply_ready: 0, ..*old(self) })
                &&& !ready ==> r is Wait && *final(self) == *old(self)
            }),
    {
        if now.wrapping_sub(start) >= DNS_WAIT_TICKS {
            return DnsPoll::Timeout;
        }
        if self.reply_ready != 0 && self.reply_id == self.query_id {
            let ip = self.reply_ip;
            self.reply_ready = 0;
            DnsPoll::Ready(ip)
        } else {
            DnsPoll::Wait
        }
    }
}


/// A name written out label by label without compression: length bytes
/// below 0xC0, each followed by that many bytes, and a final zero byte.
pub open spec fn plain_name(n: Seq<u8>) -> bool
    decreases n.len(),
{
    if n.len() == 0 {
        false
    } else if n[0] == 0 {
        n.len() == 1
    } else {
        n[0] < 0xC0 && 1 + n[0] < n.len() && plain_name(n.subrange(1 + n[0] as int, n.len() as int))
    }
}

/// A response with identifier `id` and flags `flags` to one question for
/// the name `name` (type A, class IN), holding one answer: a compression
/// pointer to that name, type A, class IN, time to live `ttl`, four bytes
/// of data, the address `addr`.
pub open spec fn a_response(id: u16, flags: u16, name: Seq<u8>, ttl: u32, addr: u32) -> Seq<u8> {
    let hdr = be16(id) + be16(flags) + be16(1) + be16(1) + be16(0) + be16(0);
    let qst = name + be16(DNS_TYPE_A) + be16(DNS_CLASS_IN);
    let ans = seq![0xC0u8, 0x0Cu8] + be16(DNS_TYPE_A) + be16(DNS_CLASS_IN) + be32(ttl) + be16(4) + be32(addr);
    hdr + qst + ans
}

proof fn lemma_be16_at(d: Seq<u8>, o: int, v: u16)
    requires
        0 <= o,
        o + 2 <= d.len(),
        d.subrange(o, o + 2) == be16(v),
    ensures
        get_be16(d, o) == v,
{
    assert(d[o] == d.subrange(o, o + 2)[0]);
    assert(d[o + 1] == d.subrange(o, o + 2)[1]);
    lemma_be16_roundtrip(v);
}

proof fn lemma_be32_at(d: Seq<u8>, o: int, v: u32)
    requires
        0 <= o,
        o + 4 <= d.len(),
        d.subrange(o, o + 4) == be32(v),
    ensures
        get_be32(d, o) == v,
{
    assert(d[o] == d.subrange(o, o + 4)[0]);
    assert(d[o + 1] == d.subrange(o, o + 4)[1]);
    assert(d[o + 2] == d.subrange(o, o + 4)[2]);
    assert(d[o + 3] == d.subrange(o, o + 4)[3]);
    lemma_be32_roundtrip(v);
}

/// A plain name at `off` is skipped to its end (or to where a pointer that
/// led to it was).
proof fn lemma_skip_plain(p: Seq<u8>, off: int, n: Seq<u8>, start: int, jumped: bool, count: int, hops: int)
    requires
        plain_name(n),
        0 <= off,
        off + n.len() <= p.len(),
        p.subrange(off, off + n.len()) == n,
    ensures
        skip_from(p, off, start, jumped, count, hops) == if jumped { count } else { off + n.len() - start },
    decreases n.len(),
{
    assert(p[off] == n[0]);
    if n[0] != 0 {
        let m = n.subrange(1 + n[0] as int, n.len() as int);
        assert(p.subrange(off + 1 + n[0], off + 1 + n[0] + m.len()) =~= m);
        lemma_skip_plain(p, off + 1 + n[0], m, start, jumped, count, hops);
    }
}

/// An A record round trip: a response to the current query (QR set, same
/// identifier) whose one answer is an A record for the question's name
/// gives that record's address, whatever the time to live, the name and
/// the other flags: the address comes from the record's data, after its
/// type, class, time to live and length.
pub proof fn lemma_a_record_round_trip(id: u16, flags: u16, name: Seq<u8>, ttl: u32, addr: u32)
    requires
        flags >= 0x8000,
        plain_name(name),
    ensures
        dns_response(a_response(id, flags, name, ttl, addr), id) == Some(addr),
{
    let hdr = be16(id) + be16(flags) + be16(1) + be16(1) + be16(0) + be16(0);
    let qst = name + be16(DNS_TYPE_A) + be16(DNS_CLASS_IN);
    let ans = seq![0xC0u8, 0x0Cu8] + be16(DNS_TYPE_A) + be16(DNS_CLASS_IN) + be32(ttl) + be16(4) + be32(addr);
    let d = a_response(id, flags, name, ttl, addr);
    let l = name.len() as int;
    assert(d == hdr + qst + ans);
    assert(d.len() == 32 + l);
    assert(d.subrange(0, 2) =~= be16(id));
    assert(d.subrange(2, 4) =~= be16(flags));
    assert(d.subrange(4, 6) =~= be16(1));
    assert(d.subrange(6, 8) =~= be16(1));
    lemma_be16_at(d, 0, id);
    lemma_be16_at(d, 2, flags);
    lemma_be16_at(d, 4, 1);
    lemma_be16_at(d, 6, 1);
    assert(d.subrange(12, 12 + l) =~= name);
    lemma_skip_plain(d, 12, name, 12, false, 0, 0);
    assert(skip_questions(d, 12, 1) == 16 + l) by {
        assert(skip_questions(d, 16 + l, 0) == 16 + l);
    }
    let q = 16 + l;
    assert(d[q] == 0xC0u8);
    assert(d[q + 1] == 0x0Cu8);
    lemma_skip_plain(d, 12, name, q, true, 2, 1);
    assert(skip_name(d, q) == 2);
    let o = q + 2;
    assert(d.subrange(o, o + 2) =~= be16(DNS_TYPE_A));
    assert(d.subrange(o + 2, o + 4) =~= be16(DNS_CLASS_IN));
    assert(d.subrange(o + 8, o + 10) =~= be16(4));
    assert(d.subrange(o + 10, o + 14) =~= be32(addr));
    lemma_be16_at(d, o, DNS_TYPE_A);
    lemma_be16_at(d, o + 2, DNS_CLASS_IN);
    lemma_be16_at(d, o + 8, 4);
    lemma_be32_at(d, o + 10, addr);
    assert(find_answer(d, q, 1) == Some(addr));
}

} // verus!
