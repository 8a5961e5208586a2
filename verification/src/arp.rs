//! ARP (RFC 826): a 16-entry table from IP to MAC addresses, learned from
//! every ARP packet received; requests for our address are answered, and
//! an address not in the table is resolved by broadcasting requests and
//! waiting for the reply.

use vstd::prelude::*;
use crate::net::{
    NET_IP_ADDR, ETH_TYPE_ARP, be16, be32, get_be16, get_be32, be16_bytes, be32_bytes, read_be16, read_be32,
    push_all, send_ethernet,
};

verus! {

pub const ARP_TABLE_SIZE: usize = 16;
pub const ARP_PACKET_LEN: usize = 28;
pub const ARP_REQUEST: u16 = 1;
pub const ARP_REPLY: u16 = 2;

/// Ticks (at 100 Hz) to wait for a reply after each request.
pub const ARP_WAIT_TICKS: u32 = 20;
/// Requests sent before giving up.
pub const ARP_ATTEMPTS: u32 = 3;

#[derive(Clone, Copy)]
pub struct ArpEntry {
    pub ip: u32,
    pub mac: [u8; 6],
    pub valid: bool,
}

pub struct ArpTable {
    pub entries: Vec<ArpEntry>,
}

pub open spec fn entry_for(e: ArpEntry, ip: u32) -> bool {
    e.valid && e.ip == ip
}

/// Index of the first of the first `n` entries that maps `ip`.
pub open spec fn first_match(e: Seq<ArpEntry>, n: int, ip: u32) -> Option<int>
    decreases n,
{
    if n <= 0 {
        None
    } else {
        match first_match(e, n - 1, ip) {
            Some(i) => Some(i),
            None => if entry_for(e[n - 1], ip) { Some(n - 1) } else { None },
        }
    }
}

/// Index of the first unused one of the first `n` entries.
pub open spec fn first_free(e: Seq<ArpEntry>, n: int) -> Option<int>
    decreases n,
{
    if n <= 0 {
        None
    } else {
        match first_free(e, n - 1) {
            Some(i) => Some(i),
            None => if !e[n - 1].valid { Some(n - 1) } else { None },
        }
    }
}

/// The MAC address the table holds for `ip`: that of the first valid entry
/// for it.
pub open spec fn arp_lookup(e: Seq<ArpEntry>, ip: u32) -> Option<[u8; 6]> {
    match first_match(e, e.len() as int, ip) {
        Some(i) => Some(e[i].mac),
        None => None,
    }
}

/// The table after learning `ip` -> `mac`: the entry for `ip` gets the new
/// address; otherwise the first unused entry takes the mapping; a full
/// table is left as it is.
pub open spec fn arp_update(e: Seq<ArpEntry>, ip: u32, mac: [u8; 6]) -> Seq<ArpEntry> {
    match first_match(e, e.len() as int, ip) {
        Some(i) => e.update(i, ArpEntry { ip, mac, valid: true }),
        None => match first_free(e, e.len() as int) {
            Some(f) => e.update(f, ArpEntry { ip, mac, valid: true }),
            None => e,
        },
    }
}

/// The 28-byte ARP packet for Ethernet and IPv4.
pub open spec fn arp_packet(opcode: u16, sender_mac: Seq<u8>, sender_ip: u32, target_mac: Seq<u8>, target_ip: u32) -> Seq<u8> {
    be16(1) + be16(0x0800) + seq![6u8, 4u8] + be16(opcode) + sender_mac + be32(sender_ip) + target_mac + be32(target_ip)
}

/// An ARP packet is looked at when it is whole and for Ethernet and IPv4.
pub open spec fn arp_accepts(d: Seq<u8>) -> bool {
    d.len() >= ARP_PACKET_LEN && get_be16(d, 0) == 1 && get_be16(d, 2) == 0x0800
}

proof fn lemma_first_match_stable(e: Seq<ArpEntry>, a: int, b: int, ip: u32)
    requires
        0 <= a <= b,
        first_match(e, a, ip) is Some,
    ensures
        first_match(e, b, ip) == first_match(e, a, ip),
    decreases b - a,
{
    if b > a {
        lemma_first_match_stable(e, a, b - 1, ip);
    }
}

proof fn lemma_first_free_stable(e: Seq<ArpEntry>, a: int, b: int)
    requires
        0 <= a <= b,
        first_free(e, a) is Some,
    ensures
        first_free(e, b) == first_free(e, a),
    decreases b - a,
{
    if b > a {
        lemma_first_free_stable(e, a, b - 1);
    }
}

proof fn lemma_first_match_range(e: Seq<ArpEntry>, n: int, ip: u32)
    ensures
        first_match(e, n, ip) matches Some(i) ==> 0 <= i < n && entry_for(e[i], ip),
        first_match(e, n, ip) is None ==> forall|k: int| 0 <= k < n ==> !entry_for(#[trigger] e[k], ip),
    decreases n,
{
    if n > 0 {
        lemma_first_match_range(e, n - 1, ip);
    }
}

proof fn lemma_first_free_range(e: Seq<ArpEntry>, n: int)
    ensures
        first_free(e, n) matches Some(i) ==> 0 <= i < n && !e[i].valid,
        first_free(e, n) is None ==> forall|k: int| 0 <= k < n ==> (#[trigger] e[k]).valid,
    decreases n,
{
    if n > 0 {
        lemma_first_free_range(e, n - 1);
    }
}

/// Two tables that agree, below `n`, on which entries map `ip` have the
/// same first match there.
proof fn lemma_first_match_agree(a: Seq<ArpEntry>, b: Seq<ArpEntry>, n: int, ip: u32)
    requires
        forall|k: int| 0 <= k < n ==> entry_for(#[trigger] a[k], ip) == entry_for(b[k], ip),
    ensures
        first_match(a, n, ip) == first_match(b, n, ip),
    decreases n,
{
    if n > 0 {
        lemma_first_match_agree(a, b, n - 1, ip);
    }
}

impl ArpTable {
    pub open spec fn wf(&self) -> bool {
        self.entries@.len() == ARP_TABLE_SIZE
    }

    /// An empty table.
    pub fn init() -> (t: ArpTable)
        ensures
            t.wf(),
            forall|i: int| 0 <= i < ARP_TABLE_SIZE ==> !(#[trigger] t.entries@[i]).valid,
    {
        let mut entries: Vec<ArpEntry> = Vec::new();
        let mut i: usize = 0;
        while i < ARP_TABLE_SIZE
            invariant
                i <= ARP_TABLE_SIZE,
                entries@.len() == i,
                forall|k: int| 0 <= k < i ==> !(#[trigger] entries@[k]).valid,
            decreases ARP_TABLE_SIZE - i,
        {
            entries.push(ArpEntry { ip: 0, mac: [0u8; 6], valid: false });
            i = i + 1;
        }
        ArpTable { entries }
    }

    /// Learn the mapping `ip` -> `mac`.
    pub fn update(&mut self, ip: u32, mac: [u8; 6])
        requires
            old(self).wf(),
        ensures
            final(self).wf(),
            final(self).entries@ == arp_update(old(self).entries@, ip, mac),
    {
        let n = self.entries.len();
        let mut free_slot: Option<usize> = None;
        let mut i: usize = 0;
        while i < n
            invariant
                n == self.entries@.len(),
                n == ARP_TABLE_SIZE,
                self.entries@ == old(self).entries@,
                i <= n,
                first_match(self.entries@, i as int, ip) is None,
                free_slot == (match first_free(self.entries@, i as int) {
                    Some(f) => Some(f as usize),
                    None => None::<usize>,
                }),
                first_free(self.entries@, i as int) matches Some(f) ==> 0 <= f < i,
            decreases n - i,
        {
            let e = self.entries[i];
            if e.valid && e.ip == ip {
                proof {
                    assert(first_match(self.entries@, i + 1, ip) == Some(i as int));
                    lemma_first_match_stable(self.entries@, i + 1, n as int, ip);
                }
                self.entries.set(i, ArpEntry { ip, mac, valid: true });
                return;
            }
            if !e.valid && free_slot.is_none() {
                free_slot = Some(i);
            }
            proof {
                if first_free(self.entries@, i as int) is Some {
                    lemma_first_free_stable(self.entries@, i as int, i + 1);
                }
            }
            i = i + 1;
        }
        match free_slot {
            Some(f) => {
                self.entries.set(f, ArpEntry { ip, mac, valid: true });
            },
            None => {},
        }
    }

    /// The MAC address held for `ip`, if any.
    pub fn lookup(&self, ip: u32) -> (r: Option<[u8; 6]>)
        requires
            self.wf(),
        ensures
            r == arp_lookup(self.entries@, ip),
    {
        let n = self.entries.len();
        let mut i: usize = 0;
        while i < n
            invariant
                n == self.entries@.len(),
                i <= n,
                first_match(self.entries@, i as int, ip) is None,
            decreases n - i,
        {
            let e = self.entries[i];
            if e.valid && e.ip == ip {
                proof {
                    assert(first_match(self.entries@, i + 1, ip) == Some(i as int));
                    lemma_first_match_stable(self.entries@, i + 1, n as int, ip);
                }
                return Some(e.mac);
            }
            i = i + 1;
        }
        None
    }

    /// Handle a received ARP packet: learn the sender's mapping, and when it
    /// is a request for our address, return the Ethernet frame carrying the
    /// reply from `our_mac`.  Packets that are short or not for Ethernet and
    /// IPv4 are ignored.
    pub fn rx(&mut self, data: &[u8], our_mac: &[u8; 6]) -> (r: Option<Vec<u8>>)
        requires
            old(self).wf(),
        ensures
            final(self).wf(),
            !arp_accepts(data@) ==> r is None && final(self).entries@ == old(self).entries@,
            arp_accepts(data@) ==> ({
                let d = data@;
                let sender_mac = d.subrange(8, 14);
                let sender_ip = get_be32(d, 14);
                &&& final(self).entries@ == arp_update(old(self).entries@, sender_ip, seq_to_mac(sender_mac))
                &&& (get_be16(d, 6) == ARP_REQUEST && get_be32(d, 24) == NET_IP_ADDR) ==> (r matches Some(f)
                    && f@ == sender_mac + our_mac@ + be16(ETH_TYPE_ARP)
                        + arp_packet(ARP_REPLY, our_mac@, NET_IP_ADDR, sender_mac, sender_ip))
                &&& !(get_be16(d, 6) == ARP_REQUEST && get_be32(d, 24) == NET_IP_ADDR) ==> r is None
            }),
    {
        if data.len() < ARP_PACKET_LEN {
            return None;
        }
        if read_be16(data, 0) != 1 || read_be16(data, 2) != 0x0800 {
            return None;
        }
        let opcode = read_be16(data, 6);
        let sender_mac: [u8; 6] = [data[8], data[9], data[10], data[11], data[12], data[13]];
        assert(sender_mac@ =~= data@.subrange(8, 14));
        proof { lemma_mac_roundtrip(sender_mac); }
        let sender_ip = read_be32(data, 14);
        let target_ip = read_be32(data, 24);
        self.update(sender_ip, sender_mac);
        if opcode == ARP_REQUEST && target_ip == NET_IP_ADDR {
            let pkt = build_packet(ARP_REPLY, our_mac, NET_IP_ADDR, &sender_mac, sender_ip);
            send_ethernet(&sender_mac, our_mac, ETH_TYPE_ARP, pkt.as_slice())
        } else {
            None
        }
    }
}

/// The six bytes of a MAC address as an array.
pub open spec fn seq_to_mac(s: Seq<u8>) -> [u8; 6] {
    choose|m: [u8; 6]| m@ == s
}

proof fn lemma_mac_roundtrip(m: [u8; 6])
    ensures
        seq_to_mac(m@) == m,
{
    assert(exists|x: [u8; 6]| #[trigger] x@ == m@) by {
        assert(m@ == m@);
    }
    let c = seq_to_mac(m@);
    assert(c@ == m@);
    assert(c =~= m);
}

fn build_packet(opcode: u16, sender_mac: &[u8; 6], sender_ip: u32, target_mac: &[u8; 6], target_ip: u32) -> (r: Vec<u8>)
    ensures
        r@ == arp_packet(opcode, sender_mac@, sender_ip, target_mac@, target_ip),
        r@.len() == ARP_PACKET_LEN,
{
    let mut p: Vec<u8> = Vec::new();
    push_all(&mut p, &be16_bytes(1));
    push_all(&mut p, &be16_bytes(0x0800));
    p.push(6);
    p.push(4);
    push_all(&mut p, &be16_bytes(opcode));
    push_all(&mut p, sender_mac);
    push_all(&mut p, &be32_bytes(sender_ip));
    push_all(&mut p, target_mac);
    push_all(&mut p, &be32_bytes(target_ip));
    assert(p@ =~= arp_packet(opcode, sender_mac@, sender_ip, target_mac@, target_ip));
    p
}

/// The broadcast Ethernet frame carrying a request, from `our_mac`, for the
/// MAC address of `target_ip`.
pub fn request_frame(target_ip: u32, our_mac: &[u8; 6]) -> (r: Vec<u8>)
    ensures
        r@ == seq![0xFFu8, 0xFFu8, 0xFFu8, 0xFFu8, 0xFFu8, 0xFFu8] + our_mac@ + be16(ETH_TYPE_ARP)
            + arp_packet(ARP_REQUEST, our_mac@, NET_IP_ADDR, seq![0u8, 0u8, 0u8, 0u8, 0u8, 0u8], target_ip),
{
    let zero = [0u8; 6];
    assert(zero@ =~= seq![0u8, 0u8, 0u8, 0u8, 0u8, 0u8]);
    let pkt = build_packet(ARP_REQUEST, our_mac, NET_IP_ADDR, &zero, target_ip);
    let bc = crate::net::eth_broadcast();
    match send_ethernet(&bc, our_mac, ETH_TYPE_ARP, pkt.as_slice()) {
        Some(f) => f,
        None => Vec::new(),
    }
}

/// Learning a mapping makes a lookup of that address give it, unless the
/// table had neither an entry for the address nor a free one.
pub proof fn lemma_update_then_lookup(e: Seq<ArpEntry>, ip: u32, mac: [u8; 6])
    requires
        first_match(e, e.len() as int, ip) is Some || first_free(e, e.len() as int) is Some,
    ensures
        arp_lookup(arp_update(e, ip, mac), ip) == Some(mac),
{
    let n = e.len() as int;
    let e2 = arp_update(e, ip, mac);
    lemma_first_match_range(e, n, ip);
    lemma_first_free_range(e, n);
    let j = match first_match(e, n, ip) {
        Some(i) => i,
        None => first_free(e, n).unwrap(),
    };
    assert(e2 == e.update(j, ArpEntry { ip, mac, valid: true }));
    // No entry below `j` maps `ip`, in either table.
    match first_match(e, n, ip) {
        Some(i) => {
            lemma_first_match_range(e, i, ip);
            assert(first_match(e, i, ip) is None) by {
                if first_match(e, i, ip) is Some {
                    lemma_first_match_stable(e, i, n, ip);
                    lemma_first_match_range(e, i, ip);
                }
            }
        },
        None => {},
    }
    lemma_first_match_range(e, j, ip);
    lemma_first_match_agree(e, e2, j, ip);
    assert(first_match(e2, j + 1, ip) == Some(j));
    lemma_first_match_stable(e2, j + 1, n, ip);
}

/// Learning a mapping for one address leaves what a lookup of any other
/// address gives unchanged.
pub proof fn lemma_update_other(e: Seq<ArpEntry>, ip: u32, mac: [u8; 6], other: u32)
    requires
        other != ip,
    ensures
        arp_lookup(arp_update(e, ip, mac), other) == arp_lookup(e, other),
{
    let n = e.len() as int;
    let e2 = arp_update(e, ip, mac);
    lemma_first_match_range(e, n, ip);
    lemma_first_free_range(e, n);
    assert forall|k: int| 0 <= k < n implies entry_for(#[trigger] e[k], other) == entry_for(e2[k], other) by {}
    lemma_first_match_agree(e, e2, n, other);
    lemma_first_match_range(e, n, other);
    assert(e2.len() == n);
}

// ---- Resolving an address ----

/// Where a resolution stands.
pub enum ResolvePhase {
    /// Nothing done yet: the table is consulted first.
    Start,
    /// Request number `attempt` (from 0) has just been sent.
    Sent(u32),
    /// Waiting since tick `start` for the reply to request `attempt`.
    Waiting(u32, u32),
}

/// What the resolver asks of its driver.
pub enum ResolveAction {
    /// The address is known.
    Found([u8; 6]),
    /// Broadcast a request now, then step again.
    SendRequest,
    /// Halt until the next interrupt, then step again.
    Wait,
    /// No reply after the last request: give up.
    Fail,
}

/// One step of resolution, given what the table holds for the address and
/// the current tick.
pub open spec fn resolve_next(held: Option<[u8; 6]>, phase: ResolvePhase, now: u32) -> (ResolveAction, ResolvePhase) {
    match phase {
        ResolvePhase::Start => match held {
            Some(m) => (ResolveAction::Found(m), phase),
            None => (ResolveAction::SendRequest, ResolvePhase::Sent(0)),
        },
        ResolvePhase::Sent(a) => match held {
            Some(m) => (ResolveAction::Found(m), ResolvePhase::Waiting(a, now)),
            None => (ResolveAction::Wait, ResolvePhase::Waiting(a, now)),
        },
        ResolvePhase::Waiting(a, start) => if vstd::wrapping::u32_specs::wrapping_sub(now, start) < ARP_WAIT_TICKS {
            match held {
                Some(m) => (ResolveAction::Found(m), phase),
                None => (ResolveAction::Wait, phase),
            }
        } else if a + 1 < ARP_ATTEMPTS {
            (ResolveAction::SendRequest, ResolvePhase::Sent((a + 1) as u32))
        } else {
            (ResolveAction::Fail, phase)
        },
    }
}

impl ArpTable {
    /// Advance the resolution of `ip` at tick `now`.  Driven in a loop, it
    /// answers from the table, or sends up to three requests and waits 20
    /// ticks after each for the reply to reach the table.
    pub fn resolve_step(&self, ip: u32, phase: &mut ResolvePhase, now: u32) -> (r: ResolveAction)
        requires
            self.wf(),
            *old(phase) matches ResolvePhase::Waiting(a, _) ==> a < ARP_ATTEMPTS,
            *old(phase) matches ResolvePhase::Sent(a) ==> a < ARP_ATTEMPTS,
        ensures
            (r, *final(phase)) == resolve_next(arp_lookup(self.entries@, ip), *old(phase), now),
            *final(phase) matches ResolvePhase::Waiting(a, _) ==> a < ARP_ATTEMPTS,
            *final(phase) matches ResolvePhase::Sent(a) ==> a < ARP_ATTEMPTS,
    {
        match *phase {
            ResolvePhase::Start => match self.lookup(ip) {
                Some(m) => ResolveAction::Found(m),
                None => {
                    *phase = ResolvePhase::Sent(0);
                    ResolveAction::SendRequest
                },
            },
            ResolvePhase::Sent(a) => {
                *phase = ResolvePhase::Waiting(a, now);
                match self.lookup(ip) {
                    Some(m) => ResolveAction::Found(m),
                    None => ResolveAction::Wait,
                }
            },
            ResolvePhase::Waiting(a, start) => {
                if now.wrapping_sub(start) < ARP_WAIT_TICKS {
                    match self.lookup(ip) {
                        Some(m) => ResolveAction::Found(m),
                        None => ResolveAction::Wait,
                    }
                } else if a + 1 < ARP_ATTEMPTS {
                    *phase = ResolvePhase::Sent(a + 1);
                    ResolveAction::SendRequest
                } else {
                    ResolveAction::Fail
                }
            },
        }
    }
}

} // verus!
