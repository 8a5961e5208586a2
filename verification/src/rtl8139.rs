//! The RTL8139 network card's ring logic: reading one received frame from
//! the receive ring (its header, where the frame lies, the next read
//! position and the value to report to the card) and choosing the
//! transmit slot, round robin over four.  Register and DMA access is the
//! caller's.

use vstd::prelude::*;
use crate::multiboot::{le32, read_le32};

verus! {

/// Bytes of the receive ring; the card may write past its end by up to a
/// frame, into the room after it.
pub const RX_RING: u16 = 8192;
pub const TX_SLOTS: u8 = 4;
pub const TX_MAX: u16 = 1536;
pub const REG_TSD0: u16 = 0x10;
pub const REG_TSAD0: u16 = 0x20;

/// A received frame: where it starts in the buffer and its length (less
/// the 4-byte checksum), the next read position, and the value for the
/// card's read pointer register (16 less, wrapping).
pub struct RxFrame {
    pub start: usize,
    pub len: u16,
    pub next: u16,
    pub capr: u16,
}

/// The frame whose header is at `off`: none when the receive-OK bit of its
/// status is clear, or when the frame does not lie within the buffer.
pub open spec fn rx_spec(buf: Seq<u8>, off: u16) -> Option<RxFrame> {
    let h = le32(buf, off as int);
    let status = h % 0x10000;
    let plen = h / 0x10000;
    if status % 2 == 0 || plen < 4 || off + plen > buf.len() {
        None
    } else {
        let next = ((((off + plen + 7) / 4) * 4) % (RX_RING as int)) as u16;
        Some(RxFrame {
            start: (off + 4) as usize,
            len: (plen - 4) as u16,
            next,
            capr: vstd::wrapping::u16_specs::wrapping_sub(next, 16),
        })
    }
}

pub fn rtl8139_rx(buf: &[u8], off: u16) -> (r: Option<RxFrame>)
    requires
        off + 4 <= buf@.len(),
    ensures
        r == rx_spec(buf@, off),
{
    let h = read_le32(buf, off as usize);
    let status = (h & 0xFFFF) as u16;
    let plen = (h >> 16) as u16;
    assert(status == h % 0x10000 && plen == h / 0x10000 && (status & 1 == 0) == (status % 2 == 0)) by (bit_vector)
        requires
            status == (h & 0xFFFF) as u16,
            plen == (h >> 16) as u16,
    ;
    if status & 1 == 0 || plen < 4 || off as usize + plen as usize > buf.len() {
        return None;
    }
    let sum: u32 = off as u32 + plen as u32 + 7;
    let aligned: u32 = sum & !3u32;
    assert(aligned == (sum / 4) * 4) by (bit_vector)
        requires
            aligned == sum & !3u32,
    ;
    let next = (aligned % RX_RING as u32) as u16;
    Some(RxFrame { start: off as usize + 4, len: plen - 4, next, capr: next.wrapping_sub(16) })
}

/// A transmission: the slot used, the length sent (at most 1536), the
/// offsets of that slot's status and address registers, and the next slot.
pub struct TxPlan {
    pub slot: u8,
    pub len: u16,
    pub status_reg: u16,
    pub addr_reg: u16,
    pub next: u8,
}

pub fn send(current: u8, length: u16) -> (r: TxPlan)
    requires
        current < TX_SLOTS,
    ensures
        r.slot == current,
        r.len == (if length > TX_MAX { TX_MAX } else { length }),
        r.status_reg == REG_TSD0 + current * 4,
        r.addr_reg == REG_TSAD0 + current * 4,
        r.next == (current + 1) % (TX_SLOTS as int),
{
    let len = if length > TX_MAX { TX_MAX } else { length };
    TxPlan {
        slot: current,
        len,
        status_reg: REG_TSD0 + current as u16 * 4,
        addr_reg: REG_TSAD0 + current as u16 * 4,
        next: (current + 1) % TX_SLOTS,
    }
}

} // verus!
