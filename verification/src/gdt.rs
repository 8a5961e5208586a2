//! Global descriptor table for long mode: each 8-byte descriptor packed
//! from a base, a limit, an access byte and granularity flags, and the
//! kernel's table of three (null, code, data).  Loading it is the caller's.

use vstd::prelude::*;

verus! {

/// One descriptor, in the order its fields lie in memory.
#[derive(Clone, Copy, PartialEq, Eq, Structural)]
pub struct GdtEntry {
    pub limit_low: u16,
    pub base_low: u16,
    pub base_mid: u8,
    pub access: u8,
    pub granularity: u8,
    pub base_high: u8,
}

/// The descriptor for a segment: the base split over three fields, the
/// low 16 bits of the limit, the limit's bits 16 to 19 below the high
/// nibble of `gran`, and the access byte.
pub open spec fn entry_spec(base: u32, limit: u32, access: u8, gran: u8) -> GdtEntry {
    GdtEntry {
        limit_low: (limit % 0x10000) as u16,
        base_low: (base % 0x10000) as u16,
        base_mid: ((base / 0x10000) % 0x100) as u8,
        access,
        granularity: ((limit / 0x10000) % 0x10 + (gran / 0x10) * 0x10) as u8,
        base_high: (base / 0x1000000) as u8,
    }
}

/// Pack a descriptor.
pub fn gdt_set_entry(base: u32, limit: u32, access: u8, gran: u8) -> (e: GdtEntry)
    ensures
        e == entry_spec(base, limit, access, gran),
{
    let base_low = (base & 0xFFFF) as u16;
    let base_mid = ((base >> 16) & 0xFF) as u8;
    let base_high = ((base >> 24) & 0xFF) as u8;
    let limit_low = (limit & 0xFFFF) as u16;
    let granularity = (((limit >> 16) & 0x0F) as u8) | (gran & 0xF0);
    assert(base_low == base % 0x10000 && base_mid == (base / 0x10000) % 0x100 && base_high == base / 0x1000000
        && limit_low == limit % 0x10000) by (bit_vector)
        requires
            base_low == (base & 0xFFFF) as u16,
            base_mid == ((base >> 16) & 0xFF) as u8,
            base_high == ((base >> 24) & 0xFF) as u8,
            limit_low == (limit & 0xFFFF) as u16,
    ;
    assert(granularity == (limit / 0x10000) % 0x10 + (gran / 0x10) * 0x10) by (bit_vector)
        requires
            granularity == (((limit >> 16) & 0x0F) as u8) | (gran & 0xF0),
    ;
    GdtEntry { limit_low, base_low, base_mid, access, granularity, base_high }
}

/// The 8 bytes of a descriptor as they lie in memory.
pub open spec fn entry_bytes(e: GdtEntry) -> Seq<u8> {
    seq![(e.limit_low % 256) as u8, (e.limit_low / 256) as u8, (e.base_low % 256) as u8, (e.base_low / 256) as u8,
        e.base_mid, e.access, e.granularity, e.base_high]
}

pub fn to_bytes(e: &GdtEntry) -> (r: [u8; 8])
    ensures
        r@ == entry_bytes(*e),
{
    let r = [(e.limit_low % 256) as u8, (e.limit_low / 256) as u8, (e.base_low % 256) as u8, (e.base_low / 256) as u8,
        e.base_mid, e.access, e.granularity, e.base_high];
    assert(r@ =~= entry_bytes(*e));
    r
}

/// The kernel's table: the null descriptor, the 64-bit code segment
/// (present, ring 0, execute/read; 4 KiB granularity, long mode) and the
/// data segment (present, ring 0, read/write; 4 KiB granularity, 32-bit),
/// with the limit field of the pointer loaded with it (its size less one).
pub fn init() -> (r: (Vec<GdtEntry>, u16))
    ensures
        r.0@ == seq![
            entry_spec(0, 0, 0, 0),
            entry_spec(0, 0xFFFF_FFFF, 0x9A, 0xAF),
            entry_spec(0, 0xFFFF_FFFF, 0x92, 0xCF),
        ],
        r.1 == 23,
{
    let mut t: Vec<GdtEntry> = Vec::new();
    t.push(gdt_set_entry(0, 0, 0, 0));
    t.push(gdt_set_entry(0, 0xFFFF_FFFF, 0x9A, 0xAF));
    t.push(gdt_set_entry(0, 0xFFFF_FFFF, 0x92, 0xCF));
    assert(t@ =~= seq![
        entry_spec(0, 0, 0, 0),
        entry_spec(0, 0xFFFF_FFFF, 0x9A, 0xAF),
        entry_spec(0, 0xFFFF_FFFF, 0x92, 0xCF),
    ]);
    (t, 23)
}

} // verus!
