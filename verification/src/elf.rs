//! Static ELF executables (32-bit i386 and 64-bit x86-64): checking the
//! headers and working out the segments to load, the entry point and the
//! initial program break.  Mapping pages and copying bytes into them is
//! left to the caller, which carries out the plan segment by segment.

use vstd::prelude::*;
use crate::multiboot::{le32, read_le32};

verus! {

pub const ELFCLASS32: u8 = 1;
pub const ELFCLASS64: u8 = 2;
pub const ELFDATA2LSB: u8 = 1;
pub const ET_EXEC: u16 = 2;
pub const EM_386: u16 = 3;
pub const EM_X86_64: u16 = 62;
pub const PT_LOAD: u32 = 1;

pub const ELF32_EHDR_LEN: usize = 52;
pub const ELF64_EHDR_LEN: usize = 64;
pub const ELF32_PHDR_LEN: usize = 32;
pub const ELF64_PHDR_LEN: usize = 56;
/// Addresses from here on are not identity-mapped at boot: their pages
/// must be allocated and mapped.
pub const MAPPED_LIMIT: u64 = 0x1_0000_0000;

/// Information returned after loading an ELF binary.
#[derive(Clone, Copy)]
pub struct ElfInfo {
    pub entry: u64,
    pub brk: u64,
}

#[derive(Clone, Copy, PartialEq, Eq, Structural)]
pub enum ElfError {
    TooSmall,
    BadMagic,
    NotLittleEndian,
    UnsupportedClass,
    TooSmallFor32,
    TooSmallFor64,
    NotExecutable,
    NotI386,
    NotX86_64,
    NoProgramHeaders,
    SegmentPastFile,
    NoLoadableSegments,
}

/// The message the loader reports for each error.
pub open spec fn error_text(e: ElfError) -> Seq<char> {
    match e {
        ElfError::TooSmall => "ELF: file too small"@,
        ElfError::BadMagic => "ELF: bad magic"@,
        ElfError::NotLittleEndian => "ELF: not little-endian"@,
        ElfError::UnsupportedClass => "ELF: unsupported class"@,
        ElfError::TooSmallFor32 => "ELF: file too small for ELF32 header"@,
        ElfError::TooSmallFor64 => "ELF: file too small for ELF64 header"@,
        ElfError::NotExecutable => "ELF: not executable"@,
        ElfError::NotI386 => "ELF: not i386"@,
        ElfError::NotX86_64 => "ELF: not x86_64"@,
        ElfError::NoProgramHeaders => "ELF: no program headers"@,
        ElfError::SegmentPastFile => "ELF: segment extends past file"@,
        ElfError::NoLoadableSegments => "ELF: no loadable segments"@,
    }
}

impl ElfError {
    /// The message the loader reports.
    pub fn message(&self) -> (r: &'static str)
        ensures
            r@ == error_text(*self),
    {
        match self {
            ElfError::TooSmall => "ELF: file too small",
            ElfError::BadMagic => "ELF: bad magic",
            ElfError::NotLittleEndian => "ELF: not little-endian",
            ElfError::UnsupportedClass => "ELF: unsupported class",
            ElfError::TooSmallFor32 => "ELF: file too small for ELF32 header",
            ElfError::TooSmallFor64 => "ELF: file too small for ELF64 header",
            ElfError::NotExecutable => "ELF: not executable",
            ElfError::NotI386 => "ELF: not i386",
            ElfError::NotX86_64 => "ELF: not x86_64",
            ElfError::NoProgramHeaders => "ELF: no program headers",
            ElfError::SegmentPastFile => "ELF: segment extends past file",
            ElfError::NoLoadableSegments => "ELF: no loadable segments",
        }
    }
}

/// A segment to load: copy `filesz` bytes from file offset `offset` to
/// `vaddr`, zero the rest up to `memsz`; the pages from `map_start` to
/// `map_end` must first be allocated and mapped when `needs_map`.
#[derive(Clone, Copy)]
pub struct Segment {
    pub vaddr: u64,
    pub memsz: u64,
    pub filesz: u64,
    pub offset: u64,
    pub map_start: u64,
    pub map_end: u64,
    pub needs_map: bool,
}

/// The segments to load, in order, and the outcome once they are loaded.
pub struct LoadPlan {
    pub segments: Vec<Segment>,
    pub result: Result<ElfInfo, ElfError>,
}

pub open spec fn le16(s: Seq<u8>, off: int) -> u16 {
    (s[off] as int + s[off + 1] as int * 256) as u16
}

pub open spec fn le64(s: Seq<u8>, off: int) -> u64 {
    (le32(s, off) as int + le32(s, off + 4) as int * 0x1_0000_0000) as u64
}

fn read_le16(s: &[u8], off: usize) -> (r: u16)
    requires
        off + 2 <= s@.len(),
    ensures
        r == le16(s@, off as int),
{
    (s[off] as u16) + (s[off + 1] as u16) * 256
}

fn read_le64(s: &[u8], off: usize) -> (r: u64)
    requires
        off + 8 <= s@.len(),
    ensures
        r == le64(s@, off as int),
{
    let _l = s.len();
    let lo = read_le32(s, off);
    let hi = read_le32(s, off + 4);
    (lo as u64) + (hi as u64) * 0x1_0000_0000
}

/// Whether the bytes start with the ELF magic number.
pub open spec fn elf_magic(d: Seq<u8>) -> bool {
    d[0] == 0x7f && d[1] == 0x45 && d[2] == 0x4c && d[3] == 0x46
}

pub fn is_elf(data: &[u8]) -> (r: bool)
    requires
        data@.len() >= 4,
    ensures
        r == elf_magic(data@),
{
    data[0] == 0x7f && data[1] == 0x45 && data[2] == 0x4c && data[3] == 0x46
}

/// A program header, read the same way for both classes.
pub struct Phdr {
    pub p_type: u32,
    pub offset: u64,
    pub vaddr: u64,
    pub filesz: u64,
    pub memsz: u64,
}

/// The header fields that drive loading.
pub open spec fn is64(class: u8) -> bool {
    class == ELFCLASS64
}

pub open spec fn phdr_len(class: u8) -> int {
    if is64(class) { ELF64_PHDR_LEN as int } else { ELF32_PHDR_LEN as int }
}

pub open spec fn e_entry(d: Seq<u8>, class: u8) -> u64 {
    if is64(class) { le64(d, 24) } else { le32(d, 24) as u64 }
}

pub open spec fn e_phnum(d: Seq<u8>, class: u8) -> u16 {
    if is64(class) { le16(d, 56) } else { le16(d, 44) }
}

/// Where program header `i` starts (the sum wraps as the machine's does).
#[verifier::opaque]
pub open spec fn phdr_pos(d: Seq<u8>, class: u8, i: int) -> int {
    if is64(class) {
        vstd::wrapping::u64_specs::wrapping_add(le64(d, 32),
            vstd::wrapping::u64_specs::wrapping_mul(i as u64, le16(d, 54) as u64)) as int
    } else {
        vstd::wrapping::u32_specs::wrapping_add(le32(d, 28),
            vstd::wrapping::u32_specs::wrapping_mul(i as u32, le16(d, 42) as u32)) as int
    }
}

#[verifier::opaque]
pub open spec fn phdr_at(d: Seq<u8>, class: u8, pos: int) -> Phdr {
    if is64(class) {
        Phdr {
            p_type: le32(d, pos),
            offset: le64(d, pos + 8),
            vaddr: le64(d, pos + 16),
            filesz: le64(d, pos + 32),
            memsz: le64(d, pos + 40),
        }
    } else {
        Phdr {
            p_type: le32(d, pos),
            offset: le32(d, pos + 4) as u64,
            vaddr: le32(d, pos + 8) as u64,
            filesz: le32(d, pos + 16) as u64,
            memsz: le32(d, pos + 20) as u64,
        }
    }
}

pub open spec fn phdr(d: Seq<u8>, class: u8, i: int) -> Phdr {
    phdr_at(d, class, phdr_pos(d, class, i))
}

/// Every program header lies within the file.
pub open spec fn phdrs_fit(d: Seq<u8>, class: u8) -> bool {
    forall|i: int| 0 <= i < e_phnum(d, class) ==> #[trigger] phdr_pos(d, class, i) + phdr_len(class) <= d.len()
}

/// A header that describes memory to load.
pub open spec fn loads(p: Phdr) -> bool {
    p.p_type == PT_LOAD && p.memsz != 0
}

/// A loaded segment whose bytes run past the end of the file (the sum
/// wraps as the machine's does).
pub open spec fn past_file(p: Phdr, size: int) -> bool {
    vstd::wrapping::u64_specs::wrapping_add(p.offset, p.filesz) > size
}

pub open spec fn round_up_page(x: u64) -> u64 {
    vstd::wrapping::u64_specs::wrapping_add(x, 0xfff) & !0xfffu64
}

pub open spec fn segment_of(p: Phdr) -> Segment {
    let start = p.vaddr & !0xfffu64;
    Segment {
        vaddr: p.vaddr,
        memsz: p.memsz,
        filesz: p.filesz,
        offset: p.offset,
        map_start: start,
        map_end: round_up_page(vstd::wrapping::u64_specs::wrapping_add(p.vaddr, p.memsz)),
        needs_map: start >= MAPPED_LIMIT,
    }
}

/// Index of the first loaded header, among the first `n`, that runs past
/// the file.
pub open spec fn first_past(d: Seq<u8>, class: u8, n: int) -> Option<int>
    decreases n,
{
    if n <= 0 {
        None
    } else {
        match first_past(d, class, n - 1) {
            Some(i) => Some(i),
            None => if loads(phdr(d, class, n - 1)) && past_file(phdr(d, class, n - 1), d.len() as int) {
                Some(n - 1)
            } else {
                None
            },
        }
    }
}

/// The segments of the loaded headers among the first `n`.
pub open spec fn segments_upto(d: Seq<u8>, class: u8, n: int) -> Seq<Segment>
    decreases n,
{
    if n <= 0 {
        Seq::empty()
    } else if loads(phdr(d, class, n - 1)) {
        segments_upto(d, class, n - 1).push(segment_of(phdr(d, class, n - 1)))
    } else {
        segments_upto(d, class, n - 1)
    }
}

/// The highest end address of the loaded headers among the first `n`
/// (0 for none).
pub open spec fn highest_upto(d: Seq<u8>, class: u8, n: int) -> u64
    decreases n,
{
    if n <= 0 {
        0
    } else {
        let h = highest_upto(d, class, n - 1);
        let p = phdr(d, class, n - 1);
        let e = vstd::wrapping::u64_specs::wrapping_add(p.vaddr, p.memsz);
        if loads(p) && e > h { e } else { h }
    }
}

/// The header checks before the program headers are read, in the order
/// the loader makes them.
pub open spec fn header_error(d: Seq<u8>) -> Option<ElfError> {
    if d.len() < 16 {
        Some(ElfError::TooSmall)
    } else if !elf_magic(d) {
        Some(ElfError::BadMagic)
    } else if d[5] != ELFDATA2LSB {
        Some(ElfError::NotLittleEndian)
    } else if d[4] != ELFCLASS32 && d[4] != ELFCLASS64 {
        Some(ElfError::UnsupportedClass)
    } else if d[4] == ELFCLASS32 && d.len() < ELF32_EHDR_LEN {
        Some(ElfError::TooSmallFor32)
    } else if d[4] == ELFCLASS64 && d.len() < ELF64_EHDR_LEN {
        Some(ElfError::TooSmallFor64)
    } else if le16(d, 16) != ET_EXEC {
        Some(ElfError::NotExecutable)
    } else if d[4] == ELFCLASS32 && le16(d, 18) != EM_386 {
        Some(ElfError::NotI386)
    } else if d[4] == ELFCLASS64 && le16(d, 18) != EM_X86_64 {
        Some(ElfError::NotX86_64)
    } else if e_phnum(d, d[4]) == 0 {
        Some(ElfError::NoProgramHeaders)
    } else {
        None
    }
}

/// The segments loaded and the outcome: the header error; else, when a
/// loaded segment runs past the file, the segments before it and that
/// error; else every loaded segment, and the entry point with the break
/// (the highest end rounded up to a page) — or an error when no segment
/// is loaded.
pub open spec fn plan_spec(d: Seq<u8>) -> (Seq<Segment>, Result<ElfInfo, ElfError>) {
    match header_error(d) {
        Some(e) => (Seq::empty(), Err(e)),
        None => {
            let class = d[4];
            let n = e_phnum(d, class) as int;
            match first_past(d, class, n) {
                Some(i) => (segments_upto(d, class, i), Err(ElfError::SegmentPastFile)),
                None => if segments_upto(d, class, n).len() == 0 {
                    (segments_upto(d, class, n), Err(ElfError::NoLoadableSegments))
                } else {
                    (segments_upto(d, class, n), Ok(ElfInfo {
                        entry: e_entry(d, class),
                        brk: round_up_page(highest_upto(d, class, n)),
                    }))
                },
            }
        },
    }
}

/// The first header check that the image fails (see `header_error`), if
/// any.
pub fn check_header(data: &[u8]) -> (r: Option<ElfError>)
    ensures
        r == header_error(data@),
{
    if data.len() < 16 {
        return Some(ElfError::TooSmall);
    }
    if !is_elf(data) {
        return Some(ElfError::BadMagic);
    }
    if data[5] != ELFDATA2LSB {
        return Some(ElfError::NotLittleEndian);
    }
    let class = data[4];
    if class != ELFCLASS32 && class != ELFCLASS64 {
        return Some(ElfError::UnsupportedClass);
    }
    if class == ELFCLASS32 && data.len() < ELF32_EHDR_LEN {
        return Some(ElfError::TooSmallFor32);
    }
    if class == ELFCLASS64 && data.len() < ELF64_EHDR_LEN {
        return Some(ElfError::TooSmallFor64);
    }
    if read_le16(data, 16) != ET_EXEC {
        return Some(ElfError::NotExecutable);
    }
    let machine = read_le16(data, 18);
    if class == ELFCLASS32 && machine != EM_386 {
        return Some(ElfError::NotI386);
    }
    if class == ELFCLASS64 && machine != EM_X86_64 {
        return Some(ElfError::NotX86_64);
    }
    let phnum = if class == ELFCLASS64 { read_le16(data, 56) } else { read_le16(data, 44) };
    if phnum == 0 {
        return Some(ElfError::NoProgramHeaders);
    }
    None
}

/// Whether the program header table lies within the file, for an image
/// whose header checks pass.
pub fn program_headers_fit(data: &[u8]) -> (r: bool)
    requires
        header_error(data@) is None,
    ensures
        r == phdrs_fit(data@, data@[4]),
{
    let class = data[4];
    let n = if class == ELFCLASS64 { read_le16(data, 56) } else { read_le16(data, 44) };
    let mut i: u16 = 0;
    while i < n
        invariant
            i <= n,
            n == e_phnum(data@, class),
            class == data@[4],
            data@.len() >= 52,
            class == ELFCLASS64 ==> data@.len() >= 64,
            forall|j: int| 0 <= j < i ==> #[trigger] phdr_pos(data@, class, j) + phdr_len(class) <= data@.len(),
        decreases n - i,
    {
        let pos = phdr_offset(data, class, i);
        let len = if class == ELFCLASS64 { ELF64_PHDR_LEN } else { ELF32_PHDR_LEN };
        let dl = data.len() as u64;
        if pos > dl || dl - pos < len as u64 {
            assert(!(phdr_pos(data@, class, i as int) + phdr_len(class) <= data@.len()));
            return false;
        }
        i = i + 1;
    }
    true
}

fn phdr_offset(data: &[u8], class: u8, i: u16) -> (r: u64)
    requires
        data@.len() >= 52,
        class == ELFCLASS64 ==> data@.len() >= 64,
    ensures
        r == phdr_pos(data@, class, i as int),
{
    reveal(phdr_pos);
    if class == ELFCLASS64 {
        let phoff = read_le64(data, 32);
        let ent = read_le16(data, 54) as u64;
        phoff.wrapping_add((i as u64).wrapping_mul(ent)) as u64
    } else {
        let phoff = read_le32(data, 28);
        let ent = read_le16(data, 42) as u32;
        phoff.wrapping_add((i as u32).wrapping_mul(ent)) as u64
    }
}

fn read_phdr(data: &[u8], class: u8, pos: usize) -> (r: Phdr)
    requires
        pos + phdr_len(class) <= data@.len(),
    ensures
        r == phdr_at(data@, class, pos as int),
{
    reveal(phdr_at);
    let _l = data.len();
    if class == ELFCLASS64 {
        Phdr {
            p_type: read_le32(data, pos),
            offset: read_le64(data, pos + 8),
            vaddr: read_le64(data, pos + 16),
            filesz: read_le64(data, pos + 32),
            memsz: read_le64(data, pos + 40),
        }
    } else {
        Phdr {
            p_type: read_le32(data, pos),
            offset: read_le32(data, pos + 4) as u64,
            vaddr: read_le32(data, pos + 8) as u64,
            filesz: read_le32(data, pos + 16) as u64,
            memsz: read_le32(data, pos + 20) as u64,
        }
    }
}


proof fn lemma_plan_step(d: Seq<u8>, class: u8, i: int, p: Phdr)
    requires
        0 <= i,
        p == phdr(d, class, i),
    ensures
        segments_upto(d, class, i + 1) == (if loads(p) { segments_upto(d, class, i).push(segment_of(p)) } else { segments_upto(d, class, i) }),
        highest_upto(d, class, i + 1) == (if loads(p) && vstd::wrapping::u64_specs::wrapping_add(p.vaddr, p.memsz) > highest_upto(d, class, i) {
            vstd::wrapping::u64_specs::wrapping_add(p.vaddr, p.memsz) } else { highest_upto(d, class, i) }),
        first_past(d, class, i) is None ==> first_past(d, class, i + 1) == (if loads(p) && past_file(p, d.len() as int) { Some(i) } else { None }),
{
}

proof fn lemma_first_past_stays(d: Seq<u8>, class: u8, i: int, n: int)
    requires
        0 <= i <= n,
        first_past(d, class, i) is Some,
    ensures
        first_past(d, class, n) == first_past(d, class, i),
    decreases n - i,
{
    if n > i {
        lemma_first_past_stays(d, class, i, n - 1);
    }
}

fn make_segment(p: &Phdr) -> (r: Segment)
    ensures
        r == segment_of(*p),
{
    let start = p.vaddr & !0xfffu64;
    let end = p.vaddr.wrapping_add(p.memsz);
    Segment {
        vaddr: p.vaddr,
        memsz: p.memsz,
        filesz: p.filesz,
        offset: p.offset,
        map_start: start,
        map_end: end.wrapping_add(0xfff) & !0xfffu64,
        needs_map: start >= MAPPED_LIMIT,
    }
}

/// Walk the program headers: the segments of the loaded ones and their
/// highest end, up to the first that runs past the file (then `true`).
fn scan_segments(data: &[u8], class: u8, phnum: u16) -> (r: (Vec<Segment>, u64, bool))
    requires
        phnum == e_phnum(data@, class),
        phdrs_fit(data@, class),
        data@.len() >= 52,
        class == ELFCLASS64 ==> data@.len() >= 64,
        data@.len() <= u32::MAX,
    ensures
        r.2 ==> (first_past(data@, class, phnum as int) matches Some(i) && r.0@ == segments_upto(data@, class, i)),
        !r.2 ==> first_past(data@, class, phnum as int) is None
            && r.0@ == segments_upto(data@, class, phnum as int)
            && r.1 == highest_upto(data@, class, phnum as int),
{
    let size = data.len() as u64;
    let mut segments: Vec<Segment> = Vec::new();
    let mut highest: u64 = 0;
    let mut i: u16 = 0;
    while i < phnum
        invariant
            i <= phnum,
            phnum == e_phnum(data@, class),
            size == data@.len(),
            data@.len() <= u32::MAX,
            phdrs_fit(data@, class),
            data@.len() >= 52,
            class == ELFCLASS64 ==> data@.len() >= 64,
            first_past(data@, class, i as int) is None,
            segments@ == segments_upto(data@, class, i as int),
            highest == highest_upto(data@, class, i as int),
        decreases phnum - i,
    {
        let pos = phdr_offset(data, class, i);
        assert(phdr_pos(data@, class, i as int) + phdr_len(class) <= data@.len());
        assert(pos <= u32::MAX);
        let pu = pos as usize;
        assert(pu as int == pos as int);
        let p = read_phdr(data, class, pu);
        proof { lemma_plan_step(data@, class, i as int, p); }
        if p.p_type == PT_LOAD && p.memsz != 0 {
            if p.offset.wrapping_add(p.filesz) > size {
                proof { lemma_first_past_stays(data@, class, i + 1, phnum as int); }
                return (segments, highest, true);
            }
            segments.push(make_segment(&p));
            let e = p.vaddr.wrapping_add(p.memsz);
            if e > highest {
                highest = e;
            }
        }
        i = i + 1;
    }
    (segments, highest, false)
}

/// Check an executable's headers and work out what to load (see
/// `plan_spec`).  The caller maps and fills each segment in order and
/// then returns the plan's result; running out of pages on the way is an
/// error of its own.
pub fn load(data: &[u8]) -> (r: LoadPlan)
    requires
        data@.len() <= u32::MAX,
        header_error(data@) is None ==> phdrs_fit(data@, data@[4]),
    ensures
        r.segments@ == plan_spec(data@).0,
        r.result == plan_spec(data@).1,
{
    if let Some(e) = check_header(data) {
        return LoadPlan { segments: Vec::new(), result: Err(e) };
    }
    let class = data[4];
    let entry: u64 = if class == ELFCLASS64 { read_le64(data, 24) } else { read_le32(data, 24) as u64 };
    let phnum = if class == ELFCLASS64 { read_le16(data, 56) } else { read_le16(data, 44) };
    assert(header_error(data@) is None);
    let (segments, highest, past) = scan_segments(data, class, phnum);
    if past {
        return LoadPlan { segments, result: Err(ElfError::SegmentPastFile) };
    }
    if segments.len() == 0 {
        return LoadPlan { segments, result: Err(ElfError::NoLoadableSegments) };
    }
    let brk = highest.wrapping_add(0xfff) & !0xfffu64;
    LoadPlan { segments, result: Ok(ElfInfo { entry, brk }) }
}

} // verus!
