//! FAT16 on a disk image: 8.3 names, the boot sector's parameters, the
//! cached FAT, the root directory (no subdirectories), reading files by
//! following cluster chains, and writing files.  The image is held in
//! memory as bytes, 512 per sector; a sector beyond its end cannot be read
//! or written.

use vstd::prelude::*;
use crate::multiboot::{le32, read_le32};
use crate::elf::le16;
use crate::string::{cstr, cstr_len, lemma_cstr, strlen};

verus! {

pub const SECTOR: u64 = 512;
pub const DIR_ENTRY_LEN: u64 = 32;
/// Cluster numbers from here on end a chain.
pub const FAT_EOC: u16 = 0xfff8;

// ---- 8.3 names -----------------------------------------------------------------

pub open spec fn upper(c: u8) -> u8 {
    if 0x61 <= c <= 0x7a { (c - 0x20) as u8 } else { c }
}

/// Index of the first dot at or after `i`, or the length.
pub open spec fn first_dot(s: Seq<u8>, i: int) -> int
    decreases s.len() - i,
{
    if i < 0 || i >= s.len() {
        s.len() as int
    } else if s[i] == 0x2e {
        i
    } else {
        first_dot(s, i + 1)
    }
}

/// The 11-byte directory form of a name: the part before the first dot
/// (at most 8 bytes) and the part after it (at most 3 bytes), upper-cased
/// and padded with spaces.
pub open spec fn name83(s: Seq<u8>) -> Seq<u8> {
    let d = first_dot(s, 0);
    let nb = if d < 8 { d } else { 8 };
    let ne = if d < s.len() { if s.len() - d - 1 < 3 { s.len() - d - 1 } else { 3 } } else { 0 };
    Seq::new(11, |k: int| if k < 8 {
        if k < nb { upper(s[k]) } else { 0x20u8 }
    } else {
        if k - 8 < ne { upper(s[d + 1 + k - 8]) } else { 0x20u8 }
    })
}

proof fn lemma_first_dot(s: Seq<u8>, i: int)
    requires
        0 <= i <= s.len(),
    ensures
        i <= first_dot(s, i) <= s.len(),
        first_dot(s, i) < s.len() ==> s[first_dot(s, i)] == 0x2e,
        forall|j: int| i <= j < first_dot(s, i) ==> s[j] != 0x2e,
    decreases s.len() - i,
{
    if i < s.len() && s[i] != 0x2e {
        lemma_first_dot(s, i + 1);
    }
}

fn upper_byte(c: u8) -> (r: u8)
    ensures
        r == upper(c),
{
    if c >= 0x61 && c <= 0x7a { c - 0x20 } else { c }
}

/// Convert the C string `name` (such as `hello.c`) to its 11-byte
/// directory form (`HELLO   C  `).
pub fn name_to_83(name: &[u8]) -> (r: Vec<u8>)
    ensures
        r@ == name83(cstr(name@)),
{
    let n = strlen(name);
    proof { lemma_cstr(name@); }
    let ghost s = cstr(name@);
    assert(s == name@.take(n as int));
    let mut d: usize = 0;
    while d < n && name[d] != 0x2e
        invariant
            d <= n,
            n <= name@.len(),
            s == name@.take(n as int),
            first_dot(s, d as int) == first_dot(s, 0),
        decreases n - d,
    {
        d = d + 1;
    }
    proof { lemma_first_dot(s, 0); }
    assert(d == first_dot(s, 0));
    let nb = if d < 8 { d } else { 8 };
    let ne = if d < n { if n - d - 1 < 3 { n - d - 1 } else { 3 } } else { 0 };
    let mut out: Vec<u8> = Vec::new();
    let mut k: usize = 0;
    while k < 11
        invariant
            k <= 11,
            d <= n,
            n <= name@.len(),
            s == name@.take(n as int),
            d == first_dot(s, 0),
            nb == (if d < 8 { d } else { 8 }),
            ne == (if d < n { if n - d - 1 < 3 { n - d - 1 } else { 3 } } else { 0 }),
            out@ == name83(s).take(k as int),
        decreases 11 - k,
    {
        let c = if k < 8 {
            if k < nb { upper_byte(name[k]) } else { 0x20 }
        } else {
            if k - 8 < ne { upper_byte(name[d + 1 + (k - 8)]) } else { 0x20 }
        };
        out.push(c);
        k = k + 1;
        assert(out@ =~= name83(s).take(k as int));
    }
    assert(out@ =~= name83(s));
    out
}

/// The bytes of the first `n` bytes of `s` that are not spaces.
pub open spec fn nonspace(s: Seq<u8>, n: int) -> Seq<u8>
    decreases n,
{
    if n <= 0 {
        Seq::empty()
    } else if s[n - 1] != 0x20 {
        nonspace(s, n - 1).push(s[n - 1])
    } else {
        nonspace(s, n - 1)
    }
}

/// The readable form of an 11-byte directory name: the name without its
/// spaces, then a dot and the extension without its spaces when the
/// extension does not start with a space.
pub open spec fn name_from83_spec(f: Seq<u8>) -> Seq<u8> {
    let base = nonspace(f, 8);
    if f[8] != 0x20 {
        base.push(0x2e) + nonspace(f.subrange(8, 11), 3)
    } else {
        base
    }
}

fn nonspace_of(s: &[u8], from: usize, n: usize, out: &mut Vec<u8>)
    requires
        from + n <= s@.len(),
    ensures
        final(out)@ == old(out)@ + nonspace(s@.subrange(from as int, from + n), n as int),
{
    let ghost t = s@.subrange(from as int, from + n);
    let l = s.len();
    let mut i: usize = 0;
    while i < n
        invariant
            i <= n,
            l == s@.len(),
            from + n <= s@.len(),
            t == s@.subrange(from as int, from + n),
            out@ == old(out)@ + nonspace(t, i as int),
        decreases n - i,
    {
        let c = s[from + i];
        assert(t[i as int] == c);
        if c != 0x20 {
            out.push(c);
        }
        i = i + 1;
        assert(out@ =~= old(out)@ + nonspace(t, i as int));
    }
}

/// Convert an 11-byte directory name to its readable form (`HELLO.C`).
pub fn name_from_83(fat_name: &[u8]) -> (r: Vec<u8>)
    requires
        fat_name@.len() >= 11,
    ensures
        r@ == name_from83_spec(fat_name@),
{
    let mut out: Vec<u8> = Vec::new();
    nonspace_of(fat_name, 0, 8, &mut out);
    proof { lemma_nonspace_prefix(fat_name@, 8); }
    if fat_name[8] != 0x20 {
        out.push(0x2e);
        nonspace_of(fat_name, 8, 3, &mut out);
    }
    assert(out@ =~= name_from83_spec(fat_name@));
    out
}

proof fn lemma_nonspace_prefix(s: Seq<u8>, n: int)
    requires
        0 <= n <= s.len(),
    ensures
        nonspace(s.subrange(0, n), n) == nonspace(s, n),
    decreases n,
{
    if n > 0 {
        lemma_nonspace_prefix_at(s, n, n);
    }
}

proof fn lemma_nonspace_prefix_at(s: Seq<u8>, m: int, n: int)
    requires
        0 <= n <= m <= s.len(),
    ensures
        nonspace(s.subrange(0, m), n) == nonspace(s, n),
    decreases n,
{
    if n > 0 {
        lemma_nonspace_prefix_at(s, m, n - 1);
    }
}

/// A name in 8.3 form: a base of 1 to 8 bytes and, optionally, a dot and
/// an extension of 1 to 3 bytes; no byte is a space or zero, and the dot is
/// the only dot.
pub open spec fn is_83_name(s: Seq<u8>) -> bool {
    let d = first_dot(s, 0);
    &&& 1 <= d <= 8
    &&& forall|j: int| 0 <= j < s.len() ==> s[j] != 0x20 && s[j] != 0
    &&& d < s.len() ==> {
        &&& 1 <= s.len() - d - 1 <= 3
        &&& forall|j: int| d < j < s.len() ==> s[j] != 0x2e
    }
}

proof fn lemma_nonspace_take(f: Seq<u8>, k: int, n: int)
    requires
        0 <= k <= n <= f.len(),
        forall|j: int| 0 <= j < k ==> f[j] != 0x20,
        forall|j: int| k <= j < n ==> f[j] == 0x20,
    ensures
        nonspace(f, n) == f.take(k),
    decreases n,
{
    if n > k {
        lemma_nonspace_take(f, k, n - 1);
    } else if n > 0 {
        lemma_nonspace_take(f, n - 1, n - 1);
        assert(f.take(n - 1).push(f[n - 1]) =~= f.take(n));
    } else {
        assert(f.take(0) =~= Seq::<u8>::empty());
    }
}

/// Reading back the directory form of an 8.3 name gives the name, upper
/// cased: `name_from_83` undoes `name_to_83` up to case.
pub proof fn lemma_83_round_trip(s: Seq<u8>)
    requires
        is_83_name(s),
    ensures
        name_from83_spec(name83(s)) == s.map_values(|c: u8| upper(c)),
{
    lemma_first_dot(s, 0);
    let d = first_dot(s, 0);
    let f = name83(s);
    let u = s.map_values(|c: u8| upper(c));
    assert forall|j: int| 0 <= j < s.len() implies upper(s[j]) != 0x20 by {}
    lemma_nonspace_take(f, d, 8);
    assert(f.take(d) =~= u.take(d));
    if d < s.len() {
        let ne = s.len() - d - 1;
        let e = f.subrange(8, 11);
        lemma_nonspace_take(e, ne, 3);
        assert(e.take(ne) =~= u.subrange(d + 1, s.len() as int));
        assert(u[d] == 0x2e);
        assert(u.take(d).push(0x2e) + u.subrange(d + 1, s.len() as int) =~= u);
    } else {
        assert(f[8] == 0x20);
        assert(u.take(d) =~= u);
    }
}

// ---- Boot sector and mounting -----------------------------------------------------

/// The boot sector's parameters and the layout worked out from them.
#[derive(Clone, Copy)]
pub struct Bpb {
    pub bytes_per_sector: u16,
    pub sectors_per_cluster: u8,
    pub reserved_sectors: u16,
    pub num_fats: u8,
    pub root_entry_count: u16,
    pub total_sectors_16: u16,
    pub total_sectors_32: u32,
    pub fat_size_16: u16,
    pub first_fat_sector: u32,
    pub first_root_sector: u32,
    pub root_dir_sectors: u32,
    pub first_data_sector: u32,
    /// Bytes per cluster.
    pub cluster_size: u32,
}

/// The parameters read from boot sector bytes `b`.
pub open spec fn bpb_of(b: Seq<u8>) -> Bpb {
    let reserved = le16(b, 14);
    let num_fats = b[16];
    let rec = le16(b, 17);
    let fat_size = le16(b, 22);
    let root_dir_sectors = ((rec as int * 32 + 511) / 512) as u32;
    let first_root = (reserved as int + num_fats as int * fat_size as int) as u32;
    Bpb {
        bytes_per_sector: le16(b, 11),
        sectors_per_cluster: b[13],
        reserved_sectors: reserved,
        num_fats,
        root_entry_count: rec,
        total_sectors_16: le16(b, 19),
        total_sectors_32: le32(b, 32),
        fat_size_16: fat_size,
        first_fat_sector: reserved as u32,
        first_root_sector: first_root,
        root_dir_sectors,
        first_data_sector: (first_root as int + root_dir_sectors as int) as u32,
        cluster_size: (b[13] as int * 512) as u32,
    }
}

/// Why a disk could not be mounted.
#[derive(Clone, Copy, PartialEq, Eq, Structural)]
pub enum MountError {
    /// The boot sector cannot be read.
    NoBootSector,
    /// Sectors are not 512 bytes.
    BadSectorSize,
    /// No FAT, or FATs of no sectors.
    BadBpb,
    /// The FAT cannot be read.
    NoFat,
}

/// A mounted FAT16 file system: its parameters, the cached first FAT
/// (one 16-bit entry per cluster) and the disk image.
pub struct Fat16 {
    pub bpb: Bpb,
    pub fat: Vec<u16>,
    pub disk: Vec<u8>,
}

pub struct FatView {
    pub bpb: Bpb,
    pub fat: Seq<u16>,
    pub disk: Seq<u8>,
}

impl Fat16 {
    pub open spec fn view(&self) -> FatView {
        FatView { bpb: self.bpb, fat: self.fat@, disk: self.disk@ }
    }

    pub open spec fn wf(&self) -> bool {
        self.view().wf()
    }
}

impl FatView {
    /// The layout is the one the boot sector gives, and the cache holds
    /// 256 entries per FAT sector.
    pub open spec fn wf(self) -> bool {
        &&& self.bpb.bytes_per_sector == 512
        &&& self.bpb.first_fat_sector == self.bpb.reserved_sectors
        &&& self.bpb.first_root_sector == self.bpb.reserved_sectors + self.bpb.num_fats as int * self.bpb.fat_size_16 as int
        &&& self.bpb.root_dir_sectors == (self.bpb.root_entry_count as int * 32 + 511) / 512
        &&& self.bpb.first_data_sector == self.bpb.first_root_sector + self.bpb.root_dir_sectors
        &&& self.bpb.cluster_size == self.bpb.sectors_per_cluster as int * 512
        &&& self.fat.len() == self.bpb.fat_size_16 as int * 256
    }
}

/// Whether sector `lba` lies wholly within the image.
pub open spec fn sector_ok(disk: Seq<u8>, lba: int) -> bool {
    0 <= lba && (lba + 1) * 512 <= disk.len()
}

/// The FAT read from the image: entry `i` is the little-endian 16-bit
/// value at byte `2 i` of the FAT.
pub open spec fn fat_from(disk: Seq<u8>, first: int, n: int) -> Seq<u16> {
    Seq::new(n as nat, |i: int| le16(disk, first * 512 + 2 * i))
}

/// Mounting: the boot sector's checks, then the cached FAT.
pub open spec fn mount_spec(disk: Seq<u8>) -> Result<FatView, MountError> {
    if !sector_ok(disk, 0) {
        Err(MountError::NoBootSector)
    } else {
        let b = bpb_of(disk.take(512));
        if b.bytes_per_sector != 512 {
            Err(MountError::BadSectorSize)
        } else if b.fat_size_16 == 0 || b.num_fats == 0 {
            Err(MountError::BadBpb)
        } else if (b.first_fat_sector as int + b.fat_size_16 as int) * 512 > disk.len() {
            Err(MountError::NoFat)
        } else {
            Ok(FatView { bpb: b, fat: fat_from(disk, b.first_fat_sector as int, b.fat_size_16 as int * 256), disk })
        }
    }
}

fn read_le16(s: &[u8], off: usize) -> (r: u16)
    requires
        off + 2 <= s@.len(),
    ensures
        r == le16(s@, off as int),
{
    (s[off] as u16) + (s[off + 1] as u16) * 256
}

impl Fat16 {
    /// Mount the file system on a disk image.
    pub fn mount(disk: Vec<u8>) -> (r: Result<Fat16, MountError>)
        ensures
            match r {
                Ok(f) => mount_spec(disk@) == Ok::<FatView, MountError>(f.view()) && f.wf(),
                Err(e) => mount_spec(disk@) == Err::<FatView, MountError>(e),
            },
    {
        if disk.len() < 512 {
            return Err(MountError::NoBootSector);
        }
        let ghost d = disk@;
        assert(disk@.take(512) =~= disk@.take(512));
        let bps = read_le16(&disk, 11);
        let spc = disk[13];
        let reserved = read_le16(&disk, 14);
        let num_fats = disk[16];
        let rec = read_le16(&disk, 17);
        let ts16 = read_le16(&disk, 19);
        let fat_size = read_le16(&disk, 22);
        let ts32 = read_le32(&disk, 32);
        proof {
            let t = d.take(512);
            assert(le16(t, 11) == le16(d, 11));
            assert(le16(t, 14) == le16(d, 14));
            assert(le16(t, 17) == le16(d, 17));
            assert(le16(t, 19) == le16(d, 19));
            assert(le16(t, 22) == le16(d, 22));
            assert(le32(t, 32) == le32(d, 32));
        }
        if bps != 512 {
            return Err(MountError::BadSectorSize);
        }
        if fat_size == 0 || num_fats == 0 {
            return Err(MountError::BadBpb);
        }
        let first_fat = reserved as u32;
        let root_dir_sectors = (rec as u32 * 32 + 511) / 512;
        assert(num_fats as u32 * fat_size as u32 <= 255 * 65535) by (nonlinear_arith)
            requires num_fats <= 255, fat_size <= 65535;
        let first_root = first_fat + num_fats as u32 * fat_size as u32;
        let bpb = Bpb {
            bytes_per_sector: bps,
            sectors_per_cluster: spc,
            reserved_sectors: reserved,
            num_fats,
            root_entry_count: rec,
            total_sectors_16: ts16,
            total_sectors_32: ts32,
            fat_size_16: fat_size,
            first_fat_sector: first_fat,
            first_root_sector: first_root,
            root_dir_sectors,
            first_data_sector: first_root + root_dir_sectors,
            cluster_size: spc as u32 * 512,
        };
        assert(bpb == bpb_of(d.take(512)));
        if (first_fat as u64 + fat_size as u64) * 512 > disk.len() as u64 {
            return Err(MountError::NoFat);
        }
        let n = fat_size as usize * 256;
        let base = first_fat as usize * 512;
        let dl = disk.len();
        let mut fat: Vec<u16> = Vec::new();
        let mut i: usize = 0;
        while i < n
            invariant
                i <= n,
                dl == disk@.len(),
                n == fat_size as int * 256,
                base == first_fat as int * 512,
                base + 2 * n <= disk@.len(),
                disk@ == d,
                fat@ == fat_from(d, first_fat as int, i as int),
            decreases n - i,
        {
            fat.push(read_le16(&disk, base + 2 * i));
            i = i + 1;
            assert(fat@ =~= fat_from(d, first_fat as int, i as int));
        }
        let f = Fat16 { bpb, fat, disk };
        assert(f.view() == FatView { bpb: bpb_of(d.take(512)), fat: fat_from(d, first_fat as int, n as int), disk: d });
        Ok(f)
    }
}

// ---- The root directory -----------------------------------------------------------

pub open spec fn entry_sector(b: Bpb, i: int) -> int {
    b.first_root_sector as int + i / 16
}

pub open spec fn entry_off(b: Bpb, i: int) -> int {
    entry_sector(b, i) * 512 + (i % 16) * 32
}

/// The 32 bytes of root directory entry `i`; none when its sector cannot
/// be read.
pub open spec fn entry_raw(v: FatView, i: int) -> Option<Seq<u8>> {
    if sector_ok(v.disk, entry_sector(v.bpb, i)) {
        Some(v.disk.subrange(entry_off(v.bpb, i), entry_off(v.bpb, i) + 32))
    } else {
        None
    }
}

/// The end of the directory.
pub open spec fn is_end(e: Seq<u8>) -> bool {
    e[0] == 0
}

/// A deleted entry, a long-name entry or the volume label.
pub open spec fn is_skipped(e: Seq<u8>) -> bool {
    e[0] == 0xe5 || e[11] == 0x0f || e[11] & 8 != 0
}

pub open spec fn is_subdir(e: Seq<u8>) -> bool {
    e[11] & 0x10 != 0
}

pub open spec fn entry_size(e: Seq<u8>) -> u32 {
    le32(e, 28)
}

pub open spec fn entry_cluster(e: Seq<u8>) -> u16 {
    le16(e, 26)
}

/// Index of the entry named `n83` from entry `i` on, or -1 (also when a
/// sector cannot be read before it is found).
pub open spec fn find_entry(v: FatView, n83: Seq<u8>, i: int) -> int
    decreases v.bpb.root_entry_count - i,
{
    if i < 0 || i >= v.bpb.root_entry_count {
        -1
    } else {
        match entry_raw(v, i) {
            None => -1,
            Some(e) => if is_end(e) {
                -1
            } else if !is_skipped(e) && e.take(11) == n83 {
                i
            } else {
                find_entry(v, n83, i + 1)
            },
        }
    }
}

/// Index of the first unused (never used or deleted) entry from `i` on,
/// or -1.
pub open spec fn free_entry(v: FatView, i: int) -> int
    decreases v.bpb.root_entry_count - i,
{
    if i < 0 || i >= v.bpb.root_entry_count {
        -1
    } else {
        match entry_raw(v, i) {
            None => -1,
            Some(e) => if e[0] == 0 || e[0] == 0xe5 { i } else { free_entry(v, i + 1) },
        }
    }
}

/// The entries of the regular files from entry `i` on, up to the end of
/// the directory (or a sector that cannot be read).
pub open spec fn files_from(v: FatView, i: int) -> Seq<Seq<u8>>
    decreases v.bpb.root_entry_count - i,
{
    if i < 0 || i >= v.bpb.root_entry_count {
        Seq::empty()
    } else {
        match entry_raw(v, i) {
            None => Seq::empty(),
            Some(e) => if is_end(e) {
                Seq::empty()
            } else if is_skipped(e) || is_subdir(e) {
                files_from(v, i + 1)
            } else {
                seq![e] + files_from(v, i + 1)
            },
        }
    }
}

impl Fat16 {
    /// The 32 bytes of root directory entry `i`.
    fn entry_at(&self, i: u32) -> (r: Option<Vec<u8>>)
        requires
            self.wf(),
            i < 65536,
        ensures
            match r {
                None => entry_raw(self.view(), i as int) is None,
                Some(e) => entry_raw(self.view(), i as int) == Some(e@) && e@.len() == 32,
            },
    {
        let sector: u64 = self.bpb.first_root_sector as u64 + (i / 16) as u64;
        if (sector + 1) * 512 > self.disk.len() as u64 {
            return None;
        }
        let off = (sector * 512) as usize + ((i % 16) * 32) as usize;
        let dl = self.disk.len();
        let mut e: Vec<u8> = Vec::new();
        let mut k: usize = 0;
        while k < 32
            invariant
                k <= 32,
                dl == self.disk@.len(),
                off + 32 <= self.disk@.len(),
                e@ == self.disk@.subrange(off as int, off + k),
            decreases 32 - k,
        {
            e.push(self.disk[off + k]);
            k = k + 1;
            assert(e@ =~= self.disk@.subrange(off as int, off + k));
        }
        Some(e)
    }

    /// Index of the root directory entry named `n83` (11 bytes), or -1.
    pub fn find_root_entry(&self, n83: &[u8]) -> (r: i32)
        requires
            self.wf(),
        ensures
            r == find_entry(self.view(), n83@, 0),
    {
        let rec = self.bpb.root_entry_count as u32;
        let mut i: u32 = 0;
        while i < rec
            invariant
                i <= rec,
                rec == self.bpb.root_entry_count,
                self.wf(),
                find_entry(self.view(), n83@, i as int) == find_entry(self.view(), n83@, 0),
            decreases rec - i,
        {
            let e = match self.entry_at(i) {
                None => return -1,
                Some(e) => e,
            };
            if e[0] == 0 {
                return -1;
            }
            let skipped = e[0] == 0xe5 || e[11] == 0x0f || e[11] & 8 != 0;
            if !skipped && n83.len() == 11 {
                let mut same = true;
                let mut k: usize = 0;
                while k < 11
                    invariant
                        k <= 11,
                        e@.len() == 32,
                        n83@.len() == 11,
                        same == (forall|q: int| 0 <= q < k ==> e@[q] == n83@[q]),
                    decreases 11 - k,
                {
                    if e[k] != n83[k] {
                        same = false;
                    }
                    k = k + 1;
                }
                if same {
                    assert(e@.take(11) =~= n83@);
                    return i as i32;
                }
                assert(e@.take(11) != n83@) by {
                    let q = choose|q: int| 0 <= q < 11 && e@[q] != n83@[q];
                    assert(e@.take(11)[q] != n83@[q]);
                }
            } else if !skipped {
                assert(e@.take(11).len() != n83@.len());
            }
            i = i + 1;
        }
        -1
    }

    /// Index of the first unused root directory entry, or -1.
    pub fn find_free_root_entry(&self) -> (r: i32)
        requires
            self.wf(),
        ensures
            r == free_entry(self.view(), 0),
    {
        let rec = self.bpb.root_entry_count as u32;
        let mut i: u32 = 0;
        while i < rec
            invariant
                i <= rec,
                rec == self.bpb.root_entry_count,
                self.wf(),
                free_entry(self.view(), i as int) == free_entry(self.view(), 0),
            decreases rec - i,
        {
            let e = match self.entry_at(i) {
                None => return -1,
                Some(e) => e,
            };
            if e[0] == 0 || e[0] == 0xe5 {
                return i as i32;
            }
            i = i + 1;
        }
        -1
    }

    /// The entries of the regular files, in directory order.
    fn regular_files(&self) -> (r: Vec<Vec<u8>>)
        requires
            self.wf(),
        ensures
            r@.map_values(|e: Vec<u8>| e@) == files_from(self.view(), 0),
            forall|k: int| 0 <= k < r@.len() ==> (#[trigger] r@[k])@.len() == 32,
    {
        let rec = self.bpb.root_entry_count as u32;
        let mut out: Vec<Vec<u8>> = Vec::new();
        let mut i: u32 = 0;
        while i < rec
            invariant
                i <= rec,
                rec == self.bpb.root_entry_count,
                self.wf(),
                files_from(self.view(), 0) == out@.map_values(|e: Vec<u8>| e@) + files_from(self.view(), i as int),
                forall|k: int| 0 <= k < out@.len() ==> (#[trigger] out@[k])@.len() == 32,
            decreases rec - i,
        {
            let e = match self.entry_at(i) {
                None => {
                    assert(out@.map_values(|e: Vec<u8>| e@) + Seq::<Seq<u8>>::empty() =~= out@.map_values(|e: Vec<u8>| e@));
                    return out;
                },
                Some(e) => e,
            };
            if e[0] == 0 {
                assert(out@.map_values(|e: Vec<u8>| e@) + Seq::<Seq<u8>>::empty() =~= out@.map_values(|e: Vec<u8>| e@));
                return out;
            }
            let skipped = e[0] == 0xe5 || e[11] == 0x0f || e[11] & 8 != 0;
            if !skipped && e[11] & 0x10 == 0 {
                let ghost before = out@.map_values(|e: Vec<u8>| e@);
                let ghost ev = e@;
                out.push(e);
                proof {
                    assert(out@.map_values(|e: Vec<u8>| e@) =~= before.push(ev));
                    assert(before + (seq![ev] + files_from(self.view(), i + 1)) =~= before.push(ev) + files_from(self.view(), i + 1));
                }
            }
            i = i + 1;
        }
        proof {
            assert(files_from(self.view(), i as int) == Seq::<Seq<u8>>::empty());
            assert(out@.map_values(|e: Vec<u8>| e@) + Seq::<Seq<u8>>::empty() =~= out@.map_values(|e: Vec<u8>| e@));
        }
        out
    }

    /// The readable names and sizes of the regular files, in directory
    /// order.
    pub fn list_files(&self) -> (r: Vec<(Vec<u8>, u32)>)
        requires
            self.wf(),
        ensures
            r@.len() == files_from(self.view(), 0).len(),
            forall|k: int| 0 <= k < r@.len() ==> (#[trigger] r@[k]).0@ == name_from83_spec(files_from(self.view(), 0)[k])
                && r@[k].1 == entry_size(files_from(self.view(), 0)[k]),
    {
        let files = self.regular_files();
        let ghost fs = files_from(self.view(), 0);
        let mut out: Vec<(Vec<u8>, u32)> = Vec::new();
        let mut k: usize = 0;
        while k < files.len()
            invariant
                k <= files@.len(),
                fs == files@.map_values(|e: Vec<u8>| e@),
                forall|j: int| 0 <= j < files@.len() ==> (#[trigger] files@[j])@.len() == 32,
                out@.len() == k,
                forall|j: int| 0 <= j < k ==> (#[trigger] out@[j]).0@ == name_from83_spec(fs[j]) && out@[j].1 == entry_size(fs[j]),
            decreases files.len() - k,
        {
            let e = &files[k];
            assert(e@ == fs[k as int]);
            let name = name_from_83(e);
            let size = read_le32(e, 28);
            out.push((name, size));
            k = k + 1;
        }
        out
    }

    /// The number of regular files.
    pub fn get_file_count(&self) -> (r: i32)
        requires
            self.wf(),
        ensures
            r == files_from(self.view(), 0).len(),
    {
        let files = self.regular_files();
        proof { lemma_files_len(self.view(), 0); }
        files.len() as i32
    }

    /// The readable name of regular file `index`; none for an index out of
    /// range or a buffer under 13 bytes.
    pub fn get_file_name(&self, index: i32, buf_size: u32) -> (r: Option<Vec<u8>>)
        requires
            self.wf(),
        ensures
            (buf_size >= 13 && 0 <= index < files_from(self.view(), 0).len()) ==> (r matches Some(n)
                && n@ == name_from83_spec(files_from(self.view(), 0)[index as int])),
            !(buf_size >= 13 && 0 <= index < files_from(self.view(), 0).len()) ==> r is None,
    {
        if buf_size < 13 {
            return None;
        }
        let files = self.regular_files();
        if index < 0 || index as usize >= files.len() {
            return None;
        }
        let e = &files[index as usize];
        assert(e@ == files_from(self.view(), 0)[index as int]);
        Some(name_from_83(e))
    }

    /// The size of regular file `index`, or 0 for an index out of range.
    pub fn get_file_size(&self, index: i32) -> (r: u32)
        requires
            self.wf(),
        ensures
            0 <= index < files_from(self.view(), 0).len() ==> r == entry_size(files_from(self.view(), 0)[index as int]),
            !(0 <= index < files_from(self.view(), 0).len()) ==> r == 0,
    {
        let files = self.regular_files();
        if index < 0 || index as usize >= files.len() {
            return 0;
        }
        let e = &files[index as usize];
        assert(e@ == files_from(self.view(), 0)[index as int]);
        read_le32(e, 28)
    }
}

proof fn lemma_files_len(v: FatView, i: int)
    requires
        0 <= i,
    ensures
        files_from(v, i).len() <= 65536,
        files_from(v, i).len() <= if i < v.bpb.root_entry_count { v.bpb.root_entry_count - i } else { 0 },
    decreases v.bpb.root_entry_count - i,
{
    if i < v.bpb.root_entry_count {
        lemma_files_len(v, i + 1);
    }
}

// ---- Reading files ------------------------------------------------------------------

/// The most clusters a chain is followed through: a chain longer than
/// this runs in a circle (each cluster read but the last takes at least
/// 512 bytes off what is left to read, or visits a new cluster).
pub const CHAIN_STEPS: u32 = 0xffff_ffff;

/// The next cluster of the chain (end of chain past the FAT's end).
pub open spec fn fat_next(v: FatView, c: u16) -> u16 {
    if c as int >= v.fat.len() { 0xffff } else { v.fat[c as int] }
}

pub open spec fn cluster_lba(b: Bpb, c: u16) -> int {
    b.first_data_sector as int + (c as int - 2) * b.sectors_per_cluster as int
}

/// Whether every sector of cluster `c` lies within the image.
pub open spec fn cluster_ok(v: FatView, c: u16) -> bool {
    v.bpb.sectors_per_cluster == 0 || (cluster_lba(v.bpb, c) + v.bpb.sectors_per_cluster as int) * 512 <= v.disk.len()
}

pub open spec fn cluster_bytes(v: FatView, c: u16) -> Seq<u8> {
    let start = cluster_lba(v.bpb, c) * 512;
    if v.bpb.sectors_per_cluster == 0 { Seq::empty() } else { v.disk.subrange(start, start + v.bpb.cluster_size as int) }
}

/// Up to `remaining` bytes read along the chain from cluster `c`; none
/// when a cluster cannot be read.
pub open spec fn chain_read(v: FatView, c: u16, remaining: u32, fuel: nat) -> Option<Seq<u8>>
    decreases fuel,
{
    if remaining == 0 || c < 2 || c >= FAT_EOC || fuel == 0 {
        Some(Seq::empty())
    } else if !cluster_ok(v, c) {
        None
    } else {
        let n: u32 = if v.bpb.cluster_size < remaining { v.bpb.cluster_size } else { remaining };
        match chain_read(v, fat_next(v, c), (remaining - n) as u32, (fuel - 1) as nat) {
            None => None,
            Some(rest) => Some(cluster_bytes(v, c).take(n as int) + rest),
        }
    }
}

/// Reading a file: the entry named by the 8.3 form of `name`, then at most
/// `max_size` of its bytes along its cluster chain.
pub open spec fn read_file_spec(v: FatView, name: Seq<u8>, max_size: u32) -> Option<Seq<u8>> {
    let i = find_entry(v, name83(name), 0);
    if i < 0 {
        None
    } else {
        let e = entry_raw(v, i).unwrap();
        let size = entry_size(e);
        if size == 0 {
            Some(Seq::empty())
        } else {
            chain_read(v, entry_cluster(e), if size < max_size { size } else { max_size }, CHAIN_STEPS as nat)
        }
    }
}

proof fn lemma_find_entry_found(v: FatView, n83: Seq<u8>, i: int)
    requires
        0 <= i,
        find_entry(v, n83, i) >= 0,
    ensures
        i <= find_entry(v, n83, i) < v.bpb.root_entry_count,
        entry_raw(v, find_entry(v, n83, i)) is Some,
    decreases v.bpb.root_entry_count - i,
{
    if i < v.bpb.root_entry_count {
        match entry_raw(v, i) {
            None => {},
            Some(e) => {
                if !is_end(e) && !(!is_skipped(e) && e.take(11) == n83) {
                    lemma_find_entry_found(v, n83, i + 1);
                }
            },
        }
    }
}

impl Fat16 {
    /// Read cluster `c` (all its sectors).
    fn read_cluster(&self, c: u16) -> (r: Option<Vec<u8>>)
        requires
            self.wf(),
            2 <= c,
        ensures
            match r {
                None => !cluster_ok(self.view(), c),
                Some(b) => cluster_ok(self.view(), c) && b@ == cluster_bytes(self.view(), c),
            },
    {
        let spc = self.bpb.sectors_per_cluster as u64;
        let mut b: Vec<u8> = Vec::new();
        if spc == 0 {
            assert(b@ =~= cluster_bytes(self.view(), c));
            return Some(b);
        }
        assert((c as u64 - 2) * spc <= 65535 * 255) by (nonlinear_arith)
            requires c <= 65535, spc <= 255;
        let lba: u64 = self.bpb.first_data_sector as u64 + (c as u64 - 2) * spc;
        if (lba + spc) * 512 > self.disk.len() as u64 {
            return None;
        }
        let cs = self.bpb.cluster_size as u64;
        assert(cs == spc * 512);
        let start = (lba * 512) as usize;
        let end = (lba * 512 + cs) as usize;
        let dl = self.disk.len();
        let mut k = start;
        while k < end
            invariant
                start <= k <= end,
                end <= dl,
                dl == self.disk@.len(),
                b@ == self.disk@.subrange(start as int, k as int),
            decreases end - k,
        {
            b.push(self.disk[k]);
            k = k + 1;
            assert(b@ =~= self.disk@.subrange(start as int, k as int));
        }
        Some(b)
    }

    /// Read at most `max_size` bytes of the file named by the C string
    /// `name`; none when there is no such file or a cluster cannot be read.
    pub fn read_file(&self, name: &[u8], max_size: u32) -> (r: Option<Vec<u8>>)
        requires
            self.wf(),
        ensures
            match r {
                None => read_file_spec(self.view(), cstr(name@), max_size) is None,
                Some(b) => read_file_spec(self.view(), cstr(name@), max_size) == Some(b@),
            },
    {
        let n83 = name_to_83(name);
        let idx = self.find_root_entry(&n83);
        if idx < 0 {
            return None;
        }
        proof { lemma_find_entry_found(self.view(), n83@, 0); }
        assert((idx as u32) as int == idx as int);
        assert(idx == find_entry(self.view(), n83@, 0));
        assert(entry_raw(self.view(), idx as int) is Some);
        let e = match self.entry_at(idx as u32) {
            None => return None,
            Some(e) => e,
        };
        let size = read_le32(&e, 28);
        if size == 0 {
            return Some(Vec::new());
        }
        let mut remaining = if size < max_size { size } else { max_size };
        let mut cluster = read_le16(&e, 26);
        let ghost v = self.view();
        let ghost full = chain_read(v, cluster, remaining, CHAIN_STEPS as nat);
        assert(full == read_file_spec(v, cstr(name@), max_size));
        let mut out: Vec<u8> = Vec::new();
        let mut fuel: u32 = CHAIN_STEPS;
        while remaining > 0 && cluster >= 2 && cluster < FAT_EOC && fuel > 0
            invariant
                self.wf(),
                v == self.view(),
                full == read_file_spec(v, cstr(name@), max_size),
                match chain_read(v, cluster, remaining, fuel as nat) {
                    None => full is None,
                    Some(t) => full == Some(out@ + t),
                },
            decreases fuel,
        {
            let b = match self.read_cluster(cluster) {
                None => return None,
                Some(b) => b,
            };
            let cs = self.bpb.cluster_size;
            let n = if cs < remaining { cs } else { remaining };
            let ghost before = out@;
            let mut k: u32 = 0;
            while k < n
                invariant
                    k <= n,
                    n <= b@.len(),
                    out@ == before + b@.take(k as int),
                decreases n - k,
            {
                out.push(b[k as usize]);
                k = k + 1;
                assert(out@ =~= before + b@.take(k as int));
            }
            let next = if (cluster as usize) < self.fat.len() { self.fat[cluster as usize] } else { 0xffff };
            proof {
                match chain_read(v, next, (remaining - n) as u32, (fuel - 1) as nat) {
                    None => {},
                    Some(t) => {
                        assert(before + (b@.take(n as int) + t) =~= before + b@.take(n as int) + t);
                    },
                }
            }
            remaining = remaining - n;
            cluster = next;
            fuel = fuel - 1;
        }
        proof {
            assert(chain_read(v, cluster, remaining, fuel as nat) == Some(Seq::<u8>::empty()));
            assert(out@ + Seq::<u8>::empty() =~= out@);
        }
        Some(out)
    }
}

// ---- Writing files ------------------------------------------------------------------

/// `disk` after writing the whole sectors of `data` from sector `lba` on,
/// as far as the image has whole sectors; and whether every sector fit.
pub open spec fn write_sectors(disk: Seq<u8>, lba: int, data: Seq<u8>) -> (Seq<u8>, bool) {
    let nsec: int = data.len() as int / 512;
    let avail: int = if disk.len() as int / 512 > lba { disk.len() as int / 512 - lba } else { 0 };
    let k: int = if nsec < avail { nsec } else { avail };
    let start = lba * 512;
    (Seq::new(disk.len(), |j: int| if start <= j < start + k * 512 { data[j - start] } else { disk[j] }), k == nsec)
}

/// Clear the chain from cluster `c` in the FAT (at most `fuel` clusters).
pub open spec fn free_chain(fat: Seq<u16>, c: u16, fuel: nat) -> Seq<u16>
    decreases fuel,
{
    if c < 2 || c >= FAT_EOC || fuel == 0 {
        fat
    } else if c as int >= fat.len() {
        fat
    } else {
        free_chain(fat.update(c as int, 0), fat[c as int], (fuel - 1) as nat)
    }
}

/// The first free cluster from `i` on, below `limit`.
pub open spec fn first_free(fat: Seq<u16>, i: int, limit: int) -> Option<int>
    decreases limit - i,
{
    if i < 0 || i >= limit || i >= fat.len() {
        None
    } else if fat[i] == 0 {
        Some(i)
    } else {
        first_free(fat, i + 1, limit)
    }
}

/// Allocate a cluster: the first free one from 2 on (below the entry
/// count taken as a 16-bit number), marked as the end of a chain; 0 when
/// none is free.
pub open spec fn fat_alloc(fat: Seq<u16>) -> (Seq<u16>, u16) {
    match first_free(fat, 2, (fat.len() as u16) as int) {
        None => (fat, 0u16),
        Some(i) => (fat.update(i, 0xffff), i as u16),
    }
}

/// The state of a file write: the FAT, the image, the first and the
/// latest cluster allocated, and how many bytes are written.
pub struct WriteState {
    pub fat: Seq<u16>,
    pub disk: Seq<u8>,
    pub first: u16,
    pub prev: u16,
    pub offset: int,
}

/// The bytes of one cluster of data: at most a cluster of `data` from
/// `offset`, then zeros.
pub open spec fn cluster_chunk(data: Seq<u8>, offset: int, cs: int) -> Seq<u8> {
    let ws = if offset + cs > data.len() { data.len() - offset } else { cs };
    data.subrange(offset, offset + ws) + Seq::new((cs - ws) as nat, |k: int| 0u8)
}

/// The most clusters a write allocates: there are fewer clusters than
/// this, so a write runs out of free clusters before it gets here.
pub const WRITE_STEPS: u32 = 0x10000;

/// The write loop: allocate a cluster, link it after the previous one,
/// write the next cluster of data into it; false when no cluster is free
/// or a cluster cannot be written.
pub open spec fn write_loop(st: WriteState, b: Bpb, data: Seq<u8>, fuel: nat) -> (WriteState, bool)
    decreases fuel,
{
    if st.offset >= data.len() {
        (st, true)
    } else if fuel == 0 {
        (st, false)
    } else {
        let (fat1, c) = fat_alloc(st.fat);
        if c == 0 {
            (WriteState { fat: fat1, ..st }, false)
        } else {
            let first = if st.first == 0 { c } else { st.first };
            let fat2 = if st.prev != 0 { fat1.update(st.prev as int, c) } else { fat1 };
            let cs = b.cluster_size as int;
            let ws = if st.offset + cs > data.len() { data.len() - st.offset } else { cs };
            let (disk2, ok) = write_sectors(st.disk, cluster_lba(b, c), cluster_chunk(data, st.offset, cs));
            let st2 = WriteState { fat: fat2, disk: disk2, first, prev: c, offset: st.offset + ws };
            if !ok { (st2, false) } else { write_loop(st2, b, data, (fuel - 1) as nat) }
        }
    }
}

/// The bytes of the cached FAT, little-endian.
pub open spec fn fat_bytes(fat: Seq<u16>) -> Seq<u8> {
    Seq::new(fat.len() * 2, |j: int| if j % 2 == 0 { (fat[j / 2] % 256) as u8 } else { (fat[j / 2] / 256) as u8 })
}

/// Write the FAT to copies `f` to `num_fats - 1`, in order.
pub open spec fn flush_from(disk: Seq<u8>, b: Bpb, fb: Seq<u8>, f: int) -> (Seq<u8>, bool)
    decreases b.num_fats - f,
{
    if f < 0 || f >= b.num_fats {
        (disk, true)
    } else {
        let (d1, ok) = write_sectors(disk, b.first_fat_sector as int + f * b.fat_size_16 as int, fb);
        if !ok { (d1, false) } else { flush_from(d1, b, fb, f + 1) }
    }
}

/// A new directory entry: the name, the archive attribute, zeros.
pub open spec fn new_entry(n83: Seq<u8>) -> Seq<u8> {
    Seq::new(32, |k: int| if k < 11 { n83[k] } else if k == 11 { 0x20u8 } else { 0u8 })
}

/// `e` with its first cluster and size fields set.
pub open spec fn with_fields(e: Seq<u8>, first: u16, size: u32) -> Seq<u8> {
    Seq::new(32, |k: int|
        if k == 26 { (first % 256) as u8 }
        else if k == 27 { (first / 256) as u8 }
        else if k == 28 { (size % 256) as u8 }
        else if k == 29 { ((size / 256) % 256) as u8 }
        else if k == 30 { ((size / 0x10000) % 256) as u8 }
        else if k == 31 { (size / 0x1000000) as u8 }
        else { e[k] })
}

/// Writing a file: the entry named by the 8.3 form of `name` (its old
/// chain freed) or else a new entry in the first unused slot; the data
/// cluster by cluster into newly allocated clusters; the entry; the FAT.
/// The result is the file system after each step that happened and 0, or
/// -1 where a step failed.
pub open spec fn write_file_spec(v: FatView, name: Seq<u8>, data: Seq<u8>) -> (FatView, i32) {
    let t = target_entry(v, name83(name));
    if t.0 < 0 {
        (v, -1i32)
    } else {
        let r = write_chain_spec(FatView { fat: t.2, ..v }, data);
        finish_write(v, t.0, t.1, r.0, r.1, data)
    }
}

/// The directory slot a write goes to, the entry it starts from, and the
/// FAT once the old chain is freed: the entry named `n83`, or else a new
/// entry in the first unused slot (-1 when there is none).
pub open spec fn target_entry(v: FatView, n83: Seq<u8>) -> (int, Seq<u8>, Seq<u16>) {
    let found = find_entry(v, n83, 0);
    if found >= 0 {
        let e = entry_raw(v, found).unwrap();
        (found, e, free_chain(v.fat, entry_cluster(e), WRITE_STEPS as nat))
    } else {
        (free_entry(v, 0), new_entry(n83), v.fat)
    }
}

/// After the data is written: the entry, then the FAT copies.
pub open spec fn finish_write(v: FatView, idx: int, entry: Seq<u8>, st: WriteState, ok: bool, data: Seq<u8>) -> (FatView, i32) {
    let v1 = FatView { fat: st.fat, disk: st.disk, ..v };
    if !ok {
        (v1, -1i32)
    } else if !sector_ok(st.disk, entry_sector(v.bpb, idx)) {
        (v1, -1i32)
    } else {
        let e2 = with_fields(entry, st.first, data.len() as u32);
        let off = entry_off(v.bpb, idx);
        let d2 = st.disk.subrange(0, off) + e2 + st.disk.subrange(off + 32, st.disk.len() as int);
        let (d3, fok) = flush_from(d2, v.bpb, fat_bytes(st.fat), 0);
        (FatView { fat: st.fat, disk: d3, ..v }, if fok { 0i32 } else { -1i32 })
    }
}

proof fn lemma_sector_fits(x: int, len: int)
    requires
        0 <= x,
        0 <= len,
    ensures
        ((x + 1) * 512 <= len) == (x < len / 512),
{
    assert(((x + 1) * 512 <= len) == (x < len / 512)) by (nonlinear_arith)
        requires 0 <= x, 0 <= len;
}

impl Fat16 {
    /// Write the whole sectors of `data` from sector `lba` on, stopping at
    /// the first that does not fit; whether all fit.
    fn write_sectors_at(&mut self, lba: u64, data: &[u8]) -> (ok: bool)
        requires
            old(self).wf(),
            lba <= 0x1_0000_0000,
            data@.len() <= 0x1_0000_0000,
        ensures
            final(self).wf(),
            final(self).bpb == old(self).bpb,
            final(self).fat@ == old(self).fat@,
            (final(self).disk@, ok) == write_sectors(old(self).disk@, lba as int, data@),
    {
        let ghost d0 = self.disk@;
        let len = self.disk.len();
        let dlen = data.len();
        let nsec = dlen / 512;
        let start: u64 = lba * 512;
        let mut k: usize = 0;
        while k < nsec
            invariant
                self.wf(),
                d0 == old(self).disk@,
                dlen == data@.len(),
                dlen <= 0x1_0000_0000,
                k <= nsec,
                nsec == data@.len() / 512,
                len == self.disk@.len(),
                len == d0.len(),
                start == lba * 512,
                lba <= 0x1_0000_0000,
                self.bpb == old(self).bpb,
                self.fat@ == old(self).fat@,
                forall|q: int| 0 <= q < k ==> #[trigger] ((lba + q + 1) * 512) <= len,
                self.disk@ == Seq::new(len as nat, |j: int| if start <= j < start + k * 512 { data@[j - start] } else { d0[j] }),
            decreases nsec - k,
        {
            let sector: u64 = lba + k as u64;
            if (sector + 1) * 512 > len as u64 {
                proof {
                    lemma_sector_fits(sector as int, len as int);
                    if k > 0 {
                        assert((lba + (k - 1) + 1) * 512 <= len);
                        lemma_sector_fits(lba + k - 1, len as int);
                    }
                    let avail: int = if len as int / 512 > lba { len as int / 512 - lba } else { 0 };
                    assert(avail == k);
                    assert(self.disk@ =~= write_sectors(d0, lba as int, data@).0);
                    assert(!write_sectors(d0, lba as int, data@).1);
                }
                return false;
            }
            let off = (sector * 512) as usize;
            let mut j: usize = 0;
            while j < 512
                invariant
                    self.wf(),
                    j <= 512,
                    off == start + k * 512,
                    off + 512 <= len,
                    k < nsec,
                    nsec == data@.len() / 512,
                    len == self.disk@.len(),
                    len == d0.len(),
                    start == lba * 512,
                    self.bpb == old(self).bpb,
                    self.fat@ == old(self).fat@,
                    self.disk@ == Seq::new(len as nat, |q: int| if start <= q < start + k * 512 + j { data@[q - start] } else { d0[q] }),
                decreases 512 - j,
            {
                assert(k * 512 + j < nsec * 512) by (nonlinear_arith)
                    requires k < nsec, j < 512;
                self.disk.set(off + j, data[k * 512 + j]);
                j = j + 1;
                assert(self.disk@ =~= Seq::new(len as nat, |q: int| if start <= q < start + k * 512 + j { data@[q - start] } else { d0[q] }));
            }
            k = k + 1;
            assert(self.disk@ =~= Seq::new(len as nat, |q: int| if start <= q < start + k * 512 { data@[q - start] } else { d0[q] }));
        }
        proof {
            if nsec > 0 {
                let last = nsec - 1;
                assert((lba + last + 1) * 512 <= len);
                lemma_sector_fits(lba + last, len as int);
            }
            let avail: int = if len as int / 512 > lba { len as int / 512 - lba } else { 0 };
            assert(nsec <= avail);
            assert(self.disk@ =~= write_sectors(d0, lba as int, data@).0);
        }
        true
    }
}

proof fn lemma_layout_bounds(v: FatView)
    requires
        v.wf(),
    ensures
        v.bpb.first_root_sector <= 0x100_0000,
        v.bpb.first_data_sector <= 0x100_2000,
        v.fat.len() <= 65535 * 256,
        v.bpb.cluster_size <= 255 * 512,
{
    let nf = v.bpb.num_fats as int;
    let fs = v.bpb.fat_size_16 as int;
    assert(nf * fs <= 255 * 65535) by (nonlinear_arith)
        requires 0 <= nf <= 255, 0 <= fs <= 65535;
}

proof fn lemma_fat_copy_bound(v: FatView, f: int)
    requires
        v.wf(),
        0 <= f < v.bpb.num_fats,
    ensures
        v.bpb.first_fat_sector as int + f * v.bpb.fat_size_16 as int <= 0x100_0000,
{
    let fs = v.bpb.fat_size_16 as int;
    assert(f * fs <= 255 * 65535) by (nonlinear_arith)
        requires 0 <= f < 255, 0 <= fs <= 65535;
}

impl Fat16 {
    /// Clear the chain from cluster `c` in the cached FAT.
    fn free_chain_at(&mut self, start: u16)
        requires
            old(self).wf(),
        ensures
            final(self).wf(),
            final(self).bpb == old(self).bpb,
            final(self).disk@ == old(self).disk@,
            final(self).fat@ == free_chain(old(self).fat@, start, WRITE_STEPS as nat),
    {
        let mut c = start;
        let mut fuel: u32 = WRITE_STEPS;
        while c >= 2 && c < FAT_EOC && fuel > 0 && (c as usize) < self.fat.len()
            invariant
                self.wf(),
                self.bpb == old(self).bpb,
                self.disk@ == old(self).disk@,
                free_chain(self.fat@, c, fuel as nat) == free_chain(old(self).fat@, start, WRITE_STEPS as nat),
            decreases fuel,
        {
            let next = self.fat[c as usize];
            self.fat.set(c as usize, 0);
            c = next;
            fuel = fuel - 1;
        }
    }

    /// Allocate the first free cluster (see `fat_alloc`).
    fn fat_alloc_at(&mut self) -> (c: u16)
        requires
            old(self).wf(),
        ensures
            final(self).wf(),
            final(self).bpb == old(self).bpb,
            final(self).disk@ == old(self).disk@,
            (final(self).fat@, c) == fat_alloc(old(self).fat@),
    {
        let limit = self.fat.len() as u16;
        let mut i: u16 = 2;
        while i < limit && (i as usize) < self.fat.len()
            invariant
                2 <= i,
                self.wf(),
                *self == *old(self),
                limit == (self.fat@.len() as u16),
                first_free(self.fat@, i as int, limit as int) == first_free(self.fat@, 2, limit as int),
            decreases limit - i,
        {
            if self.fat[i as usize] == 0 {
                self.fat.set(i as usize, 0xffff);
                return i;
            }
            i = i + 1;
        }
        0
    }
}

proof fn lemma_first_free(fat: Seq<u16>, i: int, limit: int)
    requires
        0 <= i,
    ensures
        first_free(fat, i, limit) matches Some(j) ==> i <= j < fat.len() && j < limit && fat[j] == 0,
    decreases limit - i,
{
    if i < limit && i < fat.len() && fat[i] != 0 {
        lemma_first_free(fat, i + 1, limit);
    }
}

/// The write loop from a fresh start on the file system `v`.
pub open spec fn write_chain_spec(v: FatView, data: Seq<u8>) -> (WriteState, bool) {
    write_loop(WriteState { fat: v.fat, disk: v.disk, first: 0, prev: 0, offset: 0 }, v.bpb, data, WRITE_STEPS as nat)
}

fn cluster_chunk_of(data: &[u8], offset: u32, cs: u32) -> (r: Vec<u8>)
    requires
        (offset as int) < data@.len(),
        data@.len() + cs <= u32::MAX,
    ensures
        r@ == cluster_chunk(data@, offset as int, cs as int),
        r@.len() == cs,
{
    let size = data.len() as u32;
    let ws = if offset + cs > size { size - offset } else { cs };
    let mut r: Vec<u8> = Vec::new();
    let mut k: u32 = 0;
    while k < ws
        invariant
            k <= ws,
            offset + ws <= data@.len(),
            data@.len() + cs <= u32::MAX,
            r@ == data@.subrange(offset as int, offset + k),
        decreases ws - k,
    {
        r.push(data[(offset + k) as usize]);
        k = k + 1;
        assert(r@ =~= data@.subrange(offset as int, offset + k));
    }
    let mut z: u32 = 0;
    while z < cs - ws
        invariant
            z <= cs - ws,
            offset + ws <= data@.len(),
            r@ == data@.subrange(offset as int, offset + ws) + Seq::new(z as nat, |q: int| 0u8),
        decreases cs - ws - z,
    {
        r.push(0);
        z = z + 1;
        assert(r@ =~= data@.subrange(offset as int, offset + ws) + Seq::new(z as nat, |q: int| 0u8));
    }
    r
}

impl Fat16 {
    /// Allocate clusters for `data` and write it into them (see
    /// `write_loop`); whether it all went in, and the first cluster.
    fn write_chain(&mut self, data: &[u8]) -> (r: (bool, u16))
        requires
            old(self).wf(),
            data@.len() + old(self).bpb.cluster_size <= u32::MAX,
        ensures
            final(self).wf(),
            final(self).bpb == old(self).bpb,
            final(self).fat@ == write_chain_spec(old(self).view(), data@).0.fat,
            final(self).disk@ == write_chain_spec(old(self).view(), data@).0.disk,
            r.0 == write_chain_spec(old(self).view(), data@).1,
            r.0 ==> r.1 == write_chain_spec(old(self).view(), data@).0.first,
    {
        proof { lemma_layout_bounds(self.view()); }
        let size = data.len() as u32;
        let cs = self.bpb.cluster_size;
        let spc = self.bpb.sectors_per_cluster as u64;
        let mut first: u16 = 0;
        let mut prev: u16 = 0;
        let mut offset: u32 = 0;
        let mut fuel: u32 = WRITE_STEPS;
        let ghost target = write_chain_spec(old(self).view(), data@);
        while offset < size
            invariant
                self.wf(),
                self.bpb == old(self).bpb,
                offset <= size,
                size == data@.len(),
                data@.len() + cs <= u32::MAX,
                cs == self.bpb.cluster_size,
                spc == self.bpb.sectors_per_cluster,
                self.bpb.first_data_sector <= 0x100_2000,
                prev == 0 || (prev as int) < self.fat@.len(),
                target == write_chain_spec(old(self).view(), data@),
                write_loop(WriteState { fat: self.fat@, disk: self.disk@, first, prev, offset: offset as int },
                    self.bpb, data@, fuel as nat) == target,
            decreases fuel,
        {
            if fuel == 0 {
                return (false, first);
            }
            proof { lemma_first_free(self.fat@, 2, (self.fat@.len() as u16) as int); }
            let c = self.fat_alloc_at();
            if c == 0 {
                return (false, first);
            }
            if first == 0 {
                first = c;
            }
            if prev != 0 {
                self.fat.set(prev as usize, c);
            }
            let ws = if offset + cs > size { size - offset } else { cs };
            let chunk = cluster_chunk_of(data, offset, cs);
            assert((c as u64 - 2) * spc <= 65535 * 255) by (nonlinear_arith)
                requires c <= 65535, spc <= 255;
            let lba: u64 = self.bpb.first_data_sector as u64 + (c as u64 - 2) * spc;
            let ok = self.write_sectors_at(lba, &chunk);
            if !ok {
                return (false, first);
            }
            offset = offset + ws;
            prev = c;
            fuel = fuel - 1;
        }
        (true, first)
    }
}

fn new_entry_of(n83: &Vec<u8>) -> (r: Vec<u8>)
    requires
        n83@.len() == 11,
    ensures
        r@ == new_entry(n83@),
{
    let mut r: Vec<u8> = Vec::new();
    let mut k: usize = 0;
    while k < 32
        invariant
            k <= 32,
            n83@.len() == 11,
            r@ == new_entry(n83@).take(k as int),
        decreases 32 - k,
    {
        let c = if k < 11 { n83[k] } else if k == 11 { 0x20 } else { 0 };
        r.push(c);
        k = k + 1;
        assert(r@ =~= new_entry(n83@).take(k as int));
    }
    assert(r@ =~= new_entry(n83@));
    r
}

fn fields_of(e: &Vec<u8>, first: u16, size: u32) -> (r: Vec<u8>)
    requires
        e@.len() == 32,
    ensures
        r@ == with_fields(e@, first, size),
{
    let mut r: Vec<u8> = Vec::new();
    let mut k: usize = 0;
    while k < 32
        invariant
            k <= 32,
            e@.len() == 32,
            r@ == with_fields(e@, first, size).take(k as int),
        decreases 32 - k,
    {
        let c: u8 = if k == 26 { (first % 256) as u8 }
            else if k == 27 { (first / 256) as u8 }
            else if k == 28 { (size % 256) as u8 }
            else if k == 29 { ((size / 256) % 256) as u8 }
            else if k == 30 { ((size / 0x10000) % 256) as u8 }
            else if k == 31 { (size / 0x1000000) as u8 }
            else { e[k] };
        r.push(c);
        k = k + 1;
        assert(r@ =~= with_fields(e@, first, size).take(k as int));
    }
    assert(r@ =~= with_fields(e@, first, size));
    r
}

fn fat_bytes_of(fat: &Vec<u16>) -> (r: Vec<u8>)
    requires
        fat@.len() <= 65535 * 256,
    ensures
        r@ == fat_bytes(fat@),
{
    let mut r: Vec<u8> = Vec::new();
    let mut i: usize = 0;
    while i < fat.len()
        invariant
            i <= fat@.len(),
            fat@.len() <= 65535 * 256,
            r@ == fat_bytes(fat@).take(2 * i as int),
        decreases fat.len() - i,
    {
        let w = fat[i];
        r.push((w % 256) as u8);
        r.push((w / 256) as u8);
        i = i + 1;
        assert(r@ =~= fat_bytes(fat@).take(2 * i as int));
    }
    assert(r@ =~= fat_bytes(fat@));
    r
}

impl Fat16 {
    /// Write the file named by the C string `name` with `data` (see
    /// `write_file_spec`).  Returns 0, or -1 on failure.
    pub fn write_file(&mut self, name: &[u8], data: &[u8]) -> (r: i32)
        requires
            old(self).wf(),
            data@.len() + old(self).bpb.cluster_size <= u32::MAX,
        ensures
            final(self).wf(),
            (final(self).view(), r) == write_file_spec(old(self).view(), cstr(name@), data@),
    {
        let ghost v0 = self.view();
        proof { lemma_layout_bounds(v0); }
        let n83 = name_to_83(name);
        let found = self.find_root_entry(&n83);
        let idx: i32;
        let entry: Vec<u8>;
        if found >= 0 {
            proof { lemma_find_entry_found(v0, n83@, 0); }
            assert((found as u32) as int == found as int);
            let e = match self.entry_at(found as u32) {
                None => return -1,
                Some(e) => e,
            };
            let c = read_le16(&e, 26);
            self.free_chain_at(c);
            idx = found;
            entry = e;
        } else {
            idx = self.find_free_root_entry();
            if idx < 0 {
                return -1;
            }
            entry = new_entry_of(&n83);
        }
        proof {
            if found < 0 {
                lemma_free_entry_found(v0, 0);
            }
        }
        let ghost v1 = self.view();
        assert(target_entry(v0, n83@) == (idx as int, entry@, v1.fat));
        assert(v1 == FatView { fat: v1.fat, ..v0 });
        let (ok, first) = self.write_chain(data);
        let ghost wr = write_chain_spec(v1, data@);
        if !ok {
            assert(self.view() == FatView { fat: wr.0.fat, disk: wr.0.disk, ..v0 });
            return -1;
        }
        let sector: u64 = self.bpb.first_root_sector as u64 + (idx as u32 / 16) as u64;
        if (sector + 1) * 512 > self.disk.len() as u64 {
            return -1;
        }
        let e2 = fields_of(&entry, first, data.len() as u32);
        let off = (sector * 512) as usize + ((idx as u32 % 16) * 32) as usize;
        let ghost d1 = self.disk@;
        let dl = self.disk.len();
        let mut k: usize = 0;
        while k < 32
            invariant
                k <= 32,
                self.wf(),
                self.bpb == v0.bpb,
                self.fat@ == write_chain_spec(v1, data@).0.fat,
                dl == self.disk@.len(),
                dl == d1.len(),
                off + 32 <= dl,
                e2@.len() == 32,
                self.disk@ == Seq::new(dl as nat, |q: int| if off <= q < off + k { e2@[q - off] } else { d1[q] }),
            decreases 32 - k,
        {
            self.disk.set(off + k, e2[k]);
            k = k + 1;
            assert(self.disk@ =~= Seq::new(dl as nat, |q: int| if off <= q < off + k { e2@[q - off] } else { d1[q] }));
        }
        proof {
            assert(self.disk@ =~= d1.subrange(0, off as int) + e2@ + d1.subrange(off + 32, d1.len() as int));
        }
        let fb = fat_bytes_of(&self.fat);
        let nf = self.bpb.num_fats as u32;
        let mut f: u32 = 0;
        let ghost d2 = self.disk@;
        assert(write_file_spec(v0, cstr(name@), data@) == (FatView { fat: self.fat@, disk: flush_from(d2, self.bpb, fb@, 0).0, ..v0 },
            if flush_from(d2, self.bpb, fb@, 0).1 { 0i32 } else { -1i32 }));
        while f < nf
            invariant
                f <= nf,
                v0 == old(self).view(),
                nf == self.bpb.num_fats,
                self.wf(),
                self.bpb == v0.bpb,
                fb@ == fat_bytes(self.fat@),
                fb@.len() <= 2 * 65535 * 256,
                flush_from(self.disk@, self.bpb, fb@, f as int) == flush_from(d2, self.bpb, fb@, 0),
                write_file_spec(v0, cstr(name@), data@) == (FatView { fat: self.fat@, disk: flush_from(d2, self.bpb, fb@, 0).0, ..v0 },
                    if flush_from(d2, self.bpb, fb@, 0).1 { 0i32 } else { -1i32 }),
            decreases nf - f,
        {
            proof { lemma_fat_copy_bound(self.view(), f as int); }
            let base: u64 = self.bpb.first_fat_sector as u64 + f as u64 * self.bpb.fat_size_16 as u64;
            assert(base as int == self.bpb.first_fat_sector as int + f as int * self.bpb.fat_size_16 as int);
            let ghost dprev = self.disk@;
            let ok2 = self.write_sectors_at(base, &fb);
            if !ok2 {
                proof {
                    assert(flush_from(dprev, self.bpb, fb@, f as int) == (self.disk@, false));
                    assert(self.view() == FatView { fat: self.fat@, disk: self.disk@, ..v0 });
                }
                return -1;
            }
            f = f + 1;
        }
        0
    }
}

proof fn lemma_free_entry_found(v: FatView, i: int)
    requires
        0 <= i,
        free_entry(v, i) >= 0,
    ensures
        i <= free_entry(v, i) < v.bpb.root_entry_count,
        entry_raw(v, free_entry(v, i)) is Some,
    decreases v.bpb.root_entry_count - i,
{
    if i < v.bpb.root_entry_count {
        match entry_raw(v, i) {
            None => {},
            Some(e) => {
                if !(e[0] == 0 || e[0] == 0xe5) {
                    lemma_free_entry_found(v, i + 1);
                }
            },
        }
    }
}

// ---- Reading back what was written ------------------------------------------------

/// The file system `v` with another FAT and image.
pub open spec fn with_state(v: FatView, fat: Seq<u16>, disk: Seq<u8>) -> FatView {
    FatView { bpb: v.bpb, fat, disk }
}

/// The clusters `cl` hold `data`, a cluster's worth each and in order:
/// each a distinct data cluster lying in the image, linked to the next
/// one in the FAT, the last one ending the chain.
pub open spec fn chain_holds(v: FatView, data: Seq<u8>, cl: Seq<u16>) -> bool {
    let cs = v.bpb.cluster_size as int;
    &&& forall|i: int| 0 <= i < cl.len() ==> {
        &&& 2 <= #[trigger] cl[i] < 0xff01
        &&& (cl[i] as int) < v.fat.len()
        &&& cluster_ok(v, cl[i])
        &&& cluster_bytes(v, cl[i]) == cluster_chunk(data, i * cs, cs)
    }
    &&& forall|i: int, j: int| 0 <= i < j < cl.len() ==> cl[i] != cl[j]
    &&& forall|i: int| 0 <= i < cl.len() - 1 ==> v.fat[#[trigger] cl[i] as int] == cl[i + 1]
    &&& cl.len() > 0 ==> v.fat[cl[cl.len() - 1] as int] == 0xffff
}

/// Where the write loop stands after allocating the clusters `cl`, from
/// the image `d0` and a FAT as long as that of `v`: the clusters hold the
/// data written so far, and nothing before the data area has changed.
pub open spec fn write_progress(v: FatView, d0: Seq<u8>, data: Seq<u8>, st: WriteState, cl: Seq<u16>) -> bool {
    let cs = v.bpb.cluster_size as int;
    &&& st.fat.len() == v.fat.len()
    &&& st.disk.len() == d0.len()
    &&& forall|q: int| 0 <= q < v.bpb.first_data_sector * 512 && q < d0.len() ==> #[trigger] st.disk[q] == d0[q]
    &&& chain_holds(with_state(v, st.fat, st.disk), data, cl)
    &&& cl.len() == 0 ==> st.first == 0 && st.prev == 0 && st.offset == 0
    &&& cl.len() > 0 ==> {
        &&& st.first == cl[0]
        &&& st.prev == cl[cl.len() - 1]
        &&& (cl.len() - 1) * cs < data.len()
        &&& st.offset == if cl.len() * cs < data.len() { cl.len() * cs } else { data.len() as int }
    }
}

proof fn lemma_alloc_limit(v: FatView)
    requires
        v.wf(),
    ensures
        (v.fat.len() as u16) <= 0xff00,
{
    let fs = v.bpb.fat_size_16;
    let x: u32 = ((fs as u32) * 256) as u32;
    assert(v.fat.len() == x as int);
    assert(x as u16 <= 0xff00u16) by (bit_vector)
        requires x == (fs as u32) * 256;
}

/// Cluster `c`'s sectors come after the root directory, and two clusters'
/// sectors do not overlap.
proof fn lemma_cluster_places(b: Bpb, c1: u16, c2: u16)
    requires
        2 <= c1,
        2 <= c2,
    ensures
        cluster_lba(b, c1) >= b.first_data_sector,
        c1 != c2 ==> cluster_lba(b, c1) + b.sectors_per_cluster <= cluster_lba(b, c2)
            || cluster_lba(b, c2) + b.sectors_per_cluster <= cluster_lba(b, c1),
{
    let spc = b.sectors_per_cluster as int;
    assert((c1 as int - 2) * spc >= 0) by (nonlinear_arith)
        requires c1 >= 2, spc >= 0;
    if c1 < c2 {
        assert((c1 as int - 2) * spc + spc <= (c2 as int - 2) * spc) by (nonlinear_arith)
            requires c1 < c2, spc >= 0;
    } else if c2 < c1 {
        assert((c2 as int - 2) * spc + spc <= (c1 as int - 2) * spc) by (nonlinear_arith)
            requires c2 < c1, spc >= 0;
    }
}

/// Writing a whole cluster's worth of sectors that all fit.
proof fn lemma_write_cluster(v: FatView, disk: Seq<u8>, c: u16, chunk: Seq<u8>)
    requires
        v.wf(),
        2 <= c,
        chunk.len() == v.bpb.cluster_size,
        write_sectors(disk, cluster_lba(v.bpb, c), chunk).1,
    ensures
        ({
            let d2 = write_sectors(disk, cluster_lba(v.bpb, c), chunk).0;
            let start = cluster_lba(v.bpb, c) * 512;
            &&& d2.len() == disk.len()
            &&& cluster_ok(with_state(v, v.fat, d2), c)
            &&& cluster_bytes(with_state(v, v.fat, d2), c) == chunk
            &&& forall|q: int| 0 <= q < d2.len() && !(start <= q < start + v.bpb.cluster_size) ==> #[trigger] d2[q] == disk[q]
        }),
{
    let b = v.bpb;
    let spc = b.sectors_per_cluster as int;
    let lba = cluster_lba(b, c);
    lemma_cluster_places(b, c, c);
    assert(chunk.len() as int / 512 == spc);
    let d2 = write_sectors(disk, lba, chunk).0;
    let start = lba * 512;
    let avail: int = if disk.len() as int / 512 > lba { disk.len() as int / 512 - lba } else { 0 };
    if spc > 0 {
        assert(spc <= avail);
        assert((lba + spc) * 512 <= disk.len()) by (nonlinear_arith)
            requires spc <= disk.len() as int / 512 - lba, lba >= 0, spc > 0;
        assert(cluster_bytes(with_state(v, v.fat, d2), c) =~= chunk);
    } else {
        assert(cluster_bytes(with_state(v, v.fat, d2), c) =~= chunk);
    }
}

/// One round of the write loop that allocated a cluster: the state after
/// it, whether its sectors fit, and the cluster.
spec fn loop_step(st: WriteState, b: Bpb, data: Seq<u8>) -> (WriteState, bool, u16) {
    let (fat1, c) = fat_alloc(st.fat);
    let first = if st.first == 0 { c } else { st.first };
    let fat2 = if st.prev != 0 { fat1.update(st.prev as int, c) } else { fat1 };
    let cs = b.cluster_size as int;
    let ws = if st.offset + cs > data.len() { data.len() - st.offset } else { cs };
    let (disk2, ok) = write_sectors(st.disk, cluster_lba(b, c), cluster_chunk(data, st.offset, cs));
    (WriteState { fat: fat2, disk: disk2, first, prev: c, offset: st.offset + ws }, ok, c)
}

proof fn lemma_alloc_fresh(v: FatView, d0: Seq<u8>, data: Seq<u8>, st: WriteState, cl: Seq<u16>)
    requires
        v.wf(),
        write_progress(v, d0, data, st, cl),
        fat_alloc(st.fat).1 != 0,
    ensures
        ({
            let (fat1, c) = fat_alloc(st.fat);
            &&& 2 <= c < 0xff01
            &&& (c as int) < st.fat.len()
            &&& fat1 == st.fat.update(c as int, 0xffff)
            &&& forall|i: int| 0 <= i < cl.len() ==> #[trigger] cl[i] != c
        }),
{
    let (fat1, c) = fat_alloc(st.fat);
    let k = cl.len() as int;
    lemma_alloc_limit(v);
    lemma_first_free(st.fat, 2, (st.fat.len() as u16) as int);
    match first_free(st.fat, 2, (st.fat.len() as u16) as int) {
        Some(i) => {
            assert(c as int == i);
        },
        None => {},
    }
    let w = with_state(v, st.fat, st.disk);
    assert forall|i: int| 0 <= i < k implies #[trigger] cl[i] != c by {
        if i < k - 1 {
            assert(w.fat[cl[i] as int] == cl[i + 1]);
        }
    }
}

proof fn lemma_write_step(v: FatView, d0: Seq<u8>, data: Seq<u8>, st: WriteState, cl: Seq<u16>)
    requires
        v.wf(),
        write_progress(v, d0, data, st, cl),
        st.offset < data.len(),
        fat_alloc(st.fat).1 != 0,
        loop_step(st, v.bpb, data).1,
    ensures
        write_progress(v, d0, data, loop_step(st, v.bpb, data).0, cl.push(loop_step(st, v.bpb, data).2)),
{
    let b = v.bpb;
    let cs = b.cluster_size as int;
    let k = cl.len() as int;
    lemma_alloc_fresh(v, d0, data, st, cl);
    let (st2, ok, c) = loop_step(st, b, data);
    let chunk = cluster_chunk(data, st.offset, cs);
    assert(st.offset == k * cs);
    assert((k + 1) * cs == k * cs + cs) by (nonlinear_arith);
    assert(chunk.len() == cs);
    let w = with_state(v, st.fat, st.disk);
    lemma_write_cluster(w, st.disk, c, chunk);
    let cl2 = cl.push(c);
    let w2 = with_state(v, st2.fat, st2.disk);
    let start = cluster_lba(b, c) * 512;
    lemma_cluster_places(b, c, c);
    assert forall|i: int| 0 <= i < cl2.len() implies {
        &&& 2 <= #[trigger] cl2[i] < 0xff01
        &&& (cl2[i] as int) < w2.fat.len()
        &&& cluster_ok(w2, cl2[i])
        &&& cluster_bytes(w2, cl2[i]) == cluster_chunk(data, i * cs, cs)
    } by {
        if i < k {
            assert(cl2[i] == cl[i]);
            lemma_cluster_places(b, cl[i], c);
            assert(cl[i] != c);
            assert(cluster_ok(w, cl[i]));
            if b.sectors_per_cluster > 0 {
                let si = cluster_lba(b, cl[i]) * 512;
                assert(si + cs <= start || start + cs <= si);
            }
            assert(cluster_bytes(w2, cl[i]) =~= cluster_bytes(w, cl[i]));
        }
    }
    assert forall|i: int| 0 <= i < cl2.len() - 1 implies w2.fat[#[trigger] cl2[i] as int] == cl2[i + 1] by {
        if i < k - 1 {
            assert(cl[i] != cl[k - 1]);
            assert(cl[i] != c);
            assert(w.fat[cl[i] as int] == cl[i + 1]);
        }
    }
    assert forall|i: int, j: int| 0 <= i < j < cl2.len() implies cl2[i] != cl2[j] by {
        if j == k {
            assert(cl[i] != c);
        }
    }
    assert forall|q: int| 0 <= q < v.bpb.first_data_sector * 512 && q < d0.len() implies #[trigger] st2.disk[q] == d0[q] by {
        assert(st.disk[q] == d0[q]);
    }
}

/// The write loop keeps `write_progress`; when it ends well, all of the
/// data is written.
proof fn lemma_write_loop(v: FatView, d0: Seq<u8>, data: Seq<u8>, st: WriteState, cl: Seq<u16>, fuel: nat) -> (cl2: Seq<u16>)
    requires
        v.wf(),
        write_progress(v, d0, data, st, cl),
        cl.len() + fuel <= WRITE_STEPS,
    ensures
        write_loop(st, v.bpb, data, fuel).1 ==> {
            &&& write_progress(v, d0, data, write_loop(st, v.bpb, data, fuel).0, cl2)
            &&& write_loop(st, v.bpb, data, fuel).0.offset >= data.len()
            &&& cl2.len() <= WRITE_STEPS
        },
    decreases fuel,
{
    if st.offset >= data.len() || fuel == 0 || fat_alloc(st.fat).1 == 0 {
        return cl;
    }
    let (st2, ok, c) = loop_step(st, v.bpb, data);
    assert(write_loop(st, v.bpb, data, fuel) == (if !ok { (st2, false) } else { write_loop(st2, v.bpb, data, (fuel - 1) as nat) }));
    if !ok {
        return cl;
    }
    lemma_write_step(v, d0, data, st, cl);
    lemma_write_loop(v, d0, data, st2, cl.push(c), (fuel - 1) as nat)
}

proof fn lemma_free_chain_len(fat: Seq<u16>, c: u16, fuel: nat)
    ensures
        free_chain(fat, c, fuel).len() == fat.len(),
    decreases fuel,
{
    if !(c < 2 || c >= FAT_EOC || fuel == 0) && (c as int) < fat.len() {
        lemma_free_chain_len(fat.update(c as int, 0), fat[c as int], (fuel - 1) as nat);
    }
}

/// Writing the FAT copies from copy `f` on leaves the image from the root
/// directory on as it was.
proof fn lemma_flush_frame(v: FatView, disk: Seq<u8>, fb: Seq<u8>, f: int)
    requires
        v.wf(),
        0 <= f,
        fb.len() == v.fat.len() * 2,
    ensures
        flush_from(disk, v.bpb, fb, f).0.len() == disk.len(),
        forall|q: int| v.bpb.first_root_sector * 512 <= q < disk.len() ==> #[trigger] flush_from(disk, v.bpb, fb, f).0[q] == disk[q],
    decreases v.bpb.num_fats - f,
{
    let b = v.bpb;
    if f < b.num_fats {
        let fs = b.fat_size_16 as int;
        let lba = b.first_fat_sector as int + f * fs;
        let (d1, ok) = write_sectors(disk, lba, fb);
        assert(fb.len() as int / 512 == fs);
        assert((f + 1) * fs <= b.num_fats as int * fs) by (nonlinear_arith)
            requires f + 1 <= b.num_fats, fs >= 0;
        assert(f * fs >= 0) by (nonlinear_arith)
            requires f >= 0, fs >= 0;
        assert((f + 1) * fs == f * fs + fs) by (nonlinear_arith);
        assert(lba * 512 + fs * 512 <= b.first_root_sector * 512);
        assert forall|q: int| b.first_root_sector * 512 <= q < disk.len() implies #[trigger] d1[q] == disk[q] by {
        }
        if ok {
            lemma_flush_frame(v, d1, fb, f + 1);
        }
    }
}

/// Where directory entry `j` lies.
proof fn lemma_entry_place(b: Bpb, j: int)
    requires
        0 <= j,
        b.root_dir_sectors == (b.root_entry_count as int * 32 + 511) / 512,
        b.first_data_sector == b.first_root_sector + b.root_dir_sectors,
    ensures
        entry_off(b, j) == b.first_root_sector * 512 + 32 * j,
        entry_sector(b, j) * 512 <= entry_off(b, j),
        entry_off(b, j) + 32 <= (entry_sector(b, j) + 1) * 512,
        j < b.root_entry_count ==> entry_off(b, j) + 32 <= b.first_data_sector * 512,
{
    let rec = b.root_entry_count as int;
    if j < rec {
        assert(32 * (j + 1) <= ((rec * 32 + 511) / 512) * 512) by (nonlinear_arith)
            requires 0 <= j < rec;
    }
}

proof fn lemma_field_values(e: Seq<u8>, first: u16, size: u32)
    ensures
        entry_cluster(with_fields(e, first, size)) == first,
        entry_size(with_fields(e, first, size)) == size,
        forall|k: int| 0 <= k < 26 ==> #[trigger] with_fields(e, first, size)[k] == e[k],
        with_fields(e, first, size).len() == 32,
{
    let e2 = with_fields(e, first, size);
    let f = first as int;
    let z = size as int;
    assert((f % 256) + (f / 256) * 256 == f);
    assert(e2[26] as int == f % 256 && e2[27] as int == f / 256);
    assert((z % 256) + ((z / 256) % 256) * 256 + ((z / 0x10000) % 256) * 0x10000 + (z / 0x1000000) * 0x1000000 == z);
    assert(e2[28] as int == z % 256);
    assert(e2[29] as int == (z / 256) % 256);
    assert(e2[30] as int == (z / 0x10000) % 256);
    assert(e2[31] as int == z / 0x1000000);
}

/// The chain's clusters also hold the data in an image that agrees on the
/// data area.
proof fn lemma_chain_same_data(w: FatView, v2: FatView, data: Seq<u8>, cl: Seq<u16>)
    requires
        w.wf(),
        chain_holds(w, data, cl),
        w.bpb == v2.bpb,
        w.fat == v2.fat,
        w.disk.len() == v2.disk.len(),
        forall|q: int| w.bpb.first_data_sector * 512 <= q < w.disk.len() ==> #[trigger] v2.disk[q] == w.disk[q],
    ensures
        chain_holds(v2, data, cl),
{
    let cs = w.bpb.cluster_size as int;
    assert forall|i: int| 0 <= i < cl.len() implies {
        &&& cluster_ok(v2, #[trigger] cl[i])
        &&& cluster_bytes(v2, cl[i]) == cluster_chunk(data, i * cs, cs)
    } by {
        lemma_cluster_places(w.bpb, cl[i], cl[i]);
        assert(cluster_ok(w, cl[i]));
        assert(cluster_bytes(v2, cl[i]) =~= cluster_bytes(w, cl[i]));
    }
}

/// Reading along a chain that holds the data gives the data back.
proof fn lemma_chain_read(v: FatView, data: Seq<u8>, cl: Seq<u16>, i: int, r: int, fuel: nat)
    requires
        chain_holds(v, data, cl),
        0 <= i < cl.len(),
        i * v.bpb.cluster_size < r <= data.len(),
        data.len() <= cl.len() * v.bpb.cluster_size,
        data.len() <= u32::MAX,
        fuel >= cl.len() - i,
    ensures
        chain_read(v, cl[i], (r - i * v.bpb.cluster_size) as u32, fuel) == Some(data.subrange(i * v.bpb.cluster_size, r)),
    decreases cl.len() - i,
{
    let cs = v.bpb.cluster_size as int;
    let c = cl[i];
    let rem = (r - i * cs) as u32;
    let n: u32 = if v.bpb.cluster_size < rem { v.bpb.cluster_size } else { rem };
    let chunk = cluster_chunk(data, i * cs, cs);
    assert(2 <= c < FAT_EOC);
    assert(cluster_bytes(v, c) == chunk);
    assert(chunk.take(n as int) =~= data.subrange(i * cs, i * cs + n));
    if rem <= v.bpb.cluster_size {
        assert(chain_read(v, fat_next(v, c), (rem - n) as u32, (fuel - 1) as nat) == Some(Seq::<u8>::empty()));
        assert(data.subrange(i * cs, i * cs + n) + Seq::<u8>::empty() =~= data.subrange(i * cs, r));
    } else {
        assert((i + 1) * cs == i * cs + cs) by (nonlinear_arith);
        if i + 1 >= cl.len() {
            assert((i + 1) * cs >= cl.len() * cs) by (nonlinear_arith)
                requires i + 1 >= cl.len(), cs >= 0;
        }
        assert(i + 1 < cl.len());
        assert(fat_next(v, c) == cl[i + 1]);
        lemma_chain_read(v, data, cl, i + 1, r, (fuel - 1) as nat);
        assert(data.subrange(i * cs, i * cs + n) + data.subrange((i + 1) * cs, r) =~= data.subrange(i * cs, r));
    }
}

/// Every entry before the one the search found is readable, not the end,
/// and not the name searched for.
pub open spec fn passed_over(v: FatView, n83: Seq<u8>, i: int, idx: int) -> bool {
    forall|j: int| i <= j < idx ==> {
        &&& #[trigger] entry_raw(v, j) is Some
        &&& !is_end(entry_raw(v, j).unwrap())
        &&& !(!is_skipped(entry_raw(v, j).unwrap()) && entry_raw(v, j).unwrap().take(11) == n83)
    }
}

proof fn lemma_find_entry_range(v: FatView, n83: Seq<u8>, i: int)
    ensures
        find_entry(v, n83, i) >= -1,
    decreases v.bpb.root_entry_count - i,
{
    if 0 <= i < v.bpb.root_entry_count {
        lemma_find_entry_range(v, n83, i + 1);
    }
}

proof fn lemma_found_prefix(v: FatView, n83: Seq<u8>, i: int, idx: int)
    requires
        0 <= i <= idx,
        find_entry(v, n83, i) == idx,
    ensures
        passed_over(v, n83, i, idx),
        entry_raw(v, idx) is Some,
        !is_end(entry_raw(v, idx).unwrap()),
        !is_skipped(entry_raw(v, idx).unwrap()),
        entry_raw(v, idx).unwrap().take(11) == n83,
    decreases idx - i,
{
    if i < idx {
        lemma_found_prefix(v, n83, i + 1, idx);
    } else {
        lemma_find_entry_range(v, n83, idx + 1);
        if find_entry(v, n83, idx + 1) >= 0 {
            lemma_find_entry_found(v, n83, idx + 1);
        }
    }
}

proof fn lemma_free_prefix(v: FatView, n83: Seq<u8>, i: int, idx: int)
    requires
        0 <= i <= idx,
        find_entry(v, n83, i) == -1,
        free_entry(v, i) == idx,
    ensures
        passed_over(v, n83, i, idx),
    decreases idx - i,
{
    if i < idx {
        lemma_free_prefix(v, n83, i + 1, idx);
    }
}

/// With the entries before `idx` unchanged and entry `idx` now the name,
/// the search finds `idx`.
proof fn lemma_find_after(v: FatView, v2: FatView, n83: Seq<u8>, i: int, idx: int)
    requires
        0 <= i <= idx < v.bpb.root_entry_count,
        v2.bpb == v.bpb,
        passed_over(v, n83, i, idx),
        forall|j: int| i <= j < idx ==> #[trigger] entry_raw(v2, j) == entry_raw(v, j),
        entry_raw(v2, idx) is Some,
        !is_end(entry_raw(v2, idx).unwrap()),
        !is_skipped(entry_raw(v2, idx).unwrap()),
        entry_raw(v2, idx).unwrap().take(11) == n83,
    ensures
        find_entry(v2, n83, i) == idx,
    decreases idx - i,
{
    if i < idx {
        assert(entry_raw(v2, i) == entry_raw(v, i));
        lemma_find_after(v, v2, n83, i + 1, idx);
    }
}

/// Reading a file back after writing it gives the bytes written, as many
/// as the read asks for: when `write_file` of `name` succeeds, `read_file`
/// of `name` returns the data.  (A name whose directory form starts with a
/// zero byte, or with 0xE5, the mark of a deleted entry, cannot be found
/// again once written.)
pub proof fn lemma_write_then_read(v: FatView, name: Seq<u8>, data: Seq<u8>, max_size: u32)
    requires
        v.wf(),
        data.len() + v.bpb.cluster_size <= u32::MAX,
        name83(name)[0] != 0,
        name83(name)[0] != 0xe5,
        write_file_spec(v, name, data).1 == 0,
    ensures
        read_file_spec(write_file_spec(v, name, data).0, name, max_size)
            == Some(data.take(if data.len() < max_size { data.len() as int } else { max_size as int })),
{
    let b = v.bpb;
    let n83 = name83(name);
    let len = data.len() as int;
    let t = target_entry(v, n83);
    let idx = t.0;
    let e = t.1;
    let found = find_entry(v, n83, 0);
    lemma_find_entry_range(v, n83, 0);
    if found >= 0 {
        lemma_find_entry_found(v, n83, 0);
        lemma_free_chain_len(v.fat, entry_cluster(entry_raw(v, found).unwrap()), WRITE_STEPS as nat);
        lemma_found_prefix(v, n83, 0, idx);
    } else {
        lemma_free_entry_found(v, 0);
        lemma_free_prefix(v, n83, 0, idx);
        assert(0x20u8 & 8u8 == 0u8) by (bit_vector);
        assert(e.take(11) =~= n83);
    }
    assert(0 <= idx < b.root_entry_count);
    assert(!is_end(e) && !is_skipped(e) && e.take(11) == n83 && e.len() == 32);
    let v1 = FatView { fat: t.2, ..v };
    assert(v1.wf());
    let st0 = WriteState { fat: v1.fat, disk: v1.disk, first: 0, prev: 0, offset: 0 };
    assert(write_progress(v1, v.disk, data, st0, Seq::empty()));
    let cl = lemma_write_loop(v1, v.disk, data, st0, Seq::empty(), WRITE_STEPS as nat);
    let (st, ok) = write_chain_spec(v1, data);
    assert(ok);
    assert(sector_ok(st.disk, entry_sector(b, idx)));
    let e2 = with_fields(e, st.first, data.len() as u32);
    lemma_field_values(e, st.first, data.len() as u32);
    let off = entry_off(b, idx);
    let d2 = st.disk.subrange(0, off) + e2 + st.disk.subrange(off + 32, st.disk.len() as int);
    let fb = fat_bytes(st.fat);
    let d3 = flush_from(d2, b, fb, 0).0;
    let v2 = FatView { fat: st.fat, disk: d3, ..v };
    assert(write_file_spec(v, name, data).0 == v2);
    lemma_entry_place(b, idx);
    lemma_flush_frame(v1, d2, fb, 0);
    assert(d3.len() == v.disk.len());
    // The entry written.
    assert(entry_raw(v2, idx) == Some(e2)) by {
        assert(d3.subrange(off, off + 32) =~= e2);
    }
    assert(e2.take(11) =~= e.take(11));
    // The entries before it.
    assert forall|j: int| 0 <= j < idx implies #[trigger] entry_raw(v2, j) == entry_raw(v, j) by {
        lemma_entry_place(b, j);
        if sector_ok(v.disk, entry_sector(b, j)) {
            let eo = entry_off(b, j);
            assert forall|q: int| eo <= q < eo + 32 implies #[trigger] d3[q] == v.disk[q] by {
                assert(d3[q] == d2[q]);
                assert(d2[q] == st.disk[q]);
            }
            assert(d3.subrange(eo, eo + 32) =~= v.disk.subrange(eo, eo + 32));
        }
    }
    lemma_find_after(v, v2, n83, 0, idx);
    assert(find_entry(v2, n83, 0) == idx);
    let r = if len < max_size { len } else { max_size as int };
    if len == 0 || r == 0 {
        assert(data.take(r) =~= Seq::<u8>::empty());
    } else {
        let cs = b.cluster_size as int;
        assert(cl.len() > 0);
        if cs == 0 {
            assert(cl.len() * cs == 0) by (nonlinear_arith)
                requires cs == 0;
        }
        assert(cs > 0);
        assert(cl.len() * cs >= len);
        let w = with_state(v1, st.fat, st.disk);
        assert forall|q: int| b.first_data_sector * 512 <= q < w.disk.len() implies #[trigger] v2.disk[q] == w.disk[q] by {
            assert(d3[q] == d2[q]);
        }
        lemma_chain_same_data(w, v2, data, cl);
        assert(0 * cs == 0);
        lemma_chain_read(v2, data, cl, 0, r, CHAIN_STEPS as nat);
        assert(data.subrange(0, r) =~= data.take(r));
    }
}


/// Every regular file that a lookup finds is listed: when the entry named
/// `n83` is found from entry `i` on (as `read_file` finds it) and is not a
/// subdirectory, it is among the regular files listed from entry `i` on,
/// so `list_files`, `get_file_count` and `get_file_name` show every file
/// that `read_file` reads; deleted, long-name and label entries before it
/// are passed over, not taken as the end.
pub proof fn lemma_found_file_listed(v: FatView, n83: Seq<u8>, i: int)
    requires
        find_entry(v, n83, i) >= 0,
        !is_subdir(entry_raw(v, find_entry(v, n83, i)).unwrap()),
    ensures
        files_from(v, i).contains(entry_raw(v, find_entry(v, n83, i)).unwrap()),
    decreases v.bpb.root_entry_count - i,
{
    let e = entry_raw(v, i).unwrap();
    if !is_skipped(e) && e.take(11) == n83 {
        assert(files_from(v, i)[0] == e);
    } else {
        lemma_found_file_listed(v, n83, i + 1);
        let x = entry_raw(v, find_entry(v, n83, i + 1)).unwrap();
        let fs = files_from(v, i + 1);
        let k = choose|k: int| 0 <= k < fs.len() && #[trigger] fs[k] == x;
        if !(is_skipped(e) || is_subdir(e)) {
            assert(files_from(v, i)[k + 1] == x);
        }
    }
}

} // verus!
