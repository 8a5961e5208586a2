//! Multiboot information structures, as passed by the boot loader, and
//! the reading of memory-map entries out of the raw map.

use vstd::prelude::*;

verus! {

pub const MULTIBOOT_MAGIC: u32 = 0x2BADB002;
pub const MULTIBOOT_FLAG_MODS: u32 = 8;
pub const MULTIBOOT_FLAG_MMAP: u32 = 64;
/// Bytes of a memory-map entry, its size field included.
pub const MMAP_ENTRY_LEN: usize = 24;

/// Memory map entry.  `size` counts the bytes after itself; the next entry
/// starts `size + 4` bytes further on.
#[derive(Clone, Copy)]
pub struct MmapEntry {
    pub size: u32,
    pub base_low: u32,
    pub base_high: u32,
    pub length_low: u32,
    pub length_high: u32,
    /// 1 = available RAM, anything else = reserved.
    pub entry_type: u32,
}

/// Module entry.
#[derive(Clone, Copy)]
pub struct ModEntry {
    pub mod_start: u32,
    pub mod_end: u32,
    pub cmdline: u32,
    pub padding: u32,
}

/// Multiboot information (the fields up to the memory map address).
#[derive(Clone, Copy)]
pub struct MultibootInfo {
    pub flags: u32,
    pub mem_lower: u32,
    pub mem_upper: u32,
    pub boot_device: u32,
    pub cmdline: u32,
    pub mods_count: u32,
    pub mods_addr: u32,
    pub syms: [u32; 4],
    pub mmap_length: u32,
    pub mmap_addr: u32,
}

/// The little-endian 32-bit value at `off`.
pub open spec fn le32(s: Seq<u8>, off: int) -> u32 {
    (s[off] as int + s[off + 1] as int * 256 + s[off + 2] as int * 0x10000 + s[off + 3] as int * 0x1000000) as u32
}

/// The memory-map entry stored at `off`.
pub open spec fn mmap_entry_at(s: Seq<u8>, off: int) -> MmapEntry {
    MmapEntry {
        size: le32(s, off),
        base_low: le32(s, off + 4),
        base_high: le32(s, off + 8),
        length_low: le32(s, off + 12),
        length_high: le32(s, off + 16),
        entry_type: le32(s, off + 20),
    }
}

pub fn read_le32(s: &[u8], off: usize) -> (r: u32)
    requires
        off + 4 <= s@.len(),
    ensures
        r == le32(s@, off as int),
{
    (s[off] as u32) + (s[off + 1] as u32) * 256 + (s[off + 2] as u32) * 0x10000 + (s[off + 3] as u32) * 0x1000000
}

/// Read the memory-map entry at `off`.
pub fn read_mmap_entry(s: &[u8], off: usize) -> (r: MmapEntry)
    requires
        off + MMAP_ENTRY_LEN <= s@.len(),
    ensures
        r == mmap_entry_at(s@, off as int),
{
    let n = s.len();
    assert(off + MMAP_ENTRY_LEN <= n);
    let size = read_le32(s, off);
    let base_low = read_le32(s, off + 4);
    let base_high = read_le32(s, off + 8);
    let length_low = read_le32(s, off + 12);
    let length_high = read_le32(s, off + 16);
    let entry_type = read_le32(s, off + 20);
    MmapEntry { size, base_low, base_high, length_low, length_high, entry_type }
}

} // verus!
