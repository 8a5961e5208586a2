//! The system call layer's decisions: which call a number names (in the
//! 64-bit and in the legacy 32-bit numbering), directory listing records,
//! file status records, the program break, anonymous mappings and the
//! pseudo-random byte stream.  Moving bytes between user memory and the
//! kernel is the caller's.

use vstd::prelude::*;
use crate::vfs::{Vfs, VfsView, NodeKind, FD_TABLE_SIZE, VFS_DIRECTORY, with_offset, FdRead, WriteResult,
    mkdir_p_spec, unlink_path_spec, rename_spec, fd_read_spec, fd_write_spec, fd_write_too_big};
use crate::string::cstr;

verus! {

pub const EFAULT: i64 = -14;
pub const EBADF: i64 = -9;
pub const ENOTDIR: i64 = -20;
pub const EINVAL: i64 = -22;
pub const ERANGE: i64 = -34;
pub const ENOSYS: i64 = -38;
pub const ENOMEM: i64 = -12;
pub const ENOENT: i64 = -2;

/// The calls served.
#[derive(Clone, Copy, PartialEq, Eq, Structural)]
pub enum Syscall {
    Read,
    Write,
    Open,
    Close,
    Fstat,
    Lseek,
    Mmap,
    Munmap,
    Brk,
    Ioctl,
    Writev,
    Exit,
    Getcwd,
    Rename,
    Mkdir,
    Unlink,
    ArchPrctl,
    Getdents64,
    Openat,
    Unlinkat,
    Getrandom,
    /// A call that only returns this value.
    Constant(i64),
    /// An unknown call: `-ENOSYS`.
    Unknown,
}

/// The call a 64-bit `syscall` number names.
pub open spec fn x64_call(nr: u64) -> Syscall {
    if nr == 0 { Syscall::Read }
    else if nr == 1 { Syscall::Write }
    else if nr == 2 { Syscall::Open }
    else if nr == 3 { Syscall::Close }
    else if nr == 5 { Syscall::Fstat }
    else if nr == 8 { Syscall::Lseek }
    else if nr == 9 { Syscall::Mmap }
    else if nr == 11 { Syscall::Munmap }
    else if nr == 12 { Syscall::Brk }
    else if nr == 16 { Syscall::Ioctl }
    else if nr == 20 { Syscall::Writev }
    else if nr == 39 { Syscall::Constant(1) }
    else if nr == 60 || nr == 231 { Syscall::Exit }
    else if nr == 79 { Syscall::Getcwd }
    else if nr == 82 { Syscall::Rename }
    else if nr == 83 { Syscall::Mkdir }
    else if nr == 87 { Syscall::Unlink }
    else if nr == 158 { Syscall::ArchPrctl }
    else if nr == 217 { Syscall::Getdents64 }
    else if nr == 257 { Syscall::Openat }
    else if nr == 263 { Syscall::Unlinkat }
    else if nr == 318 { Syscall::Getrandom }
    else if nr == 10 || nr == 13 || nr == 14 || nr == 21 || nr == 63 || nr == 72 || nr == 96
        || nr == 102 || nr == 104 || nr == 107 || nr == 108 || nr == 218 || nr == 228
        || nr == 302 || nr == 334 { Syscall::Constant(0) }
    else { Syscall::Unknown }
}

pub fn syscall_x64(nr: u64) -> (r: Syscall)
    ensures
        r == x64_call(nr),
{
    match nr {
        0 => Syscall::Read,
        1 => Syscall::Write,
        2 => Syscall::Open,
        3 => Syscall::Close,
        5 => Syscall::Fstat,
        8 => Syscall::Lseek,
        9 => Syscall::Mmap,
        11 => Syscall::Munmap,
        12 => Syscall::Brk,
        16 => Syscall::Ioctl,
        20 => Syscall::Writev,
        39 => Syscall::Constant(1),
        60 | 231 => Syscall::Exit,
        79 => Syscall::Getcwd,
        82 => Syscall::Rename,
        83 => Syscall::Mkdir,
        87 => Syscall::Unlink,
        158 => Syscall::ArchPrctl,
        217 => Syscall::Getdents64,
        257 => Syscall::Openat,
        263 => Syscall::Unlinkat,
        318 => Syscall::Getrandom,
        10 | 13 | 14 | 21 | 63 | 72 | 96 | 102 | 104 | 107 | 108 | 218 | 228 | 302 | 334 => Syscall::Constant(0),
        _ => Syscall::Unknown,
    }
}

/// The call a legacy `int 0x80` number names.
pub open spec fn i386_call(nr: u64) -> Syscall {
    if nr == 1 { Syscall::Exit }
    else if nr == 3 { Syscall::Read }
    else if nr == 4 { Syscall::Write }
    else if nr == 5 { Syscall::Open }
    else if nr == 6 { Syscall::Close }
    else if nr == 8 || nr == 19 { Syscall::Lseek }
    else if nr == 28 { Syscall::Fstat }
    else if nr == 39 { Syscall::Mkdir }
    else if nr == 10 { Syscall::Unlink }
    else if nr == 38 { Syscall::Rename }
    else if nr == 45 { Syscall::Brk }
    else if nr == 54 || nr == 90 { Syscall::Constant(-1i64) }
    else if nr == 91 { Syscall::Constant(0) }
    else if nr == 141 { Syscall::Getdents64 }
    else if nr == 146 { Syscall::Writev }
    else if nr == 183 { Syscall::Getcwd }
    else if nr == 355 { Syscall::Getrandom }
    else { Syscall::Unknown }
}

pub fn syscall_i386(nr: u64) -> (r: Syscall)
    ensures
        r == i386_call(nr),
{
    match nr {
        1 => Syscall::Exit,
        3 => Syscall::Read,
        4 => Syscall::Write,
        5 => Syscall::Open,
        6 => Syscall::Close,
        8 | 19 => Syscall::Lseek,
        28 => Syscall::Fstat,
        39 => Syscall::Mkdir,
        10 => Syscall::Unlink,
        38 => Syscall::Rename,
        45 => Syscall::Brk,
        54 | 90 => Syscall::Constant(-1),
        91 => Syscall::Constant(0),
        141 => Syscall::Getdents64,
        146 => Syscall::Writev,
        183 => Syscall::Getcwd,
        355 => Syscall::Getrandom,
        _ => Syscall::Unknown,
    }
}

// ---- Little-endian fields ----------------------------------------------------------

proof fn lemma_le_len(v: u64, n: nat)
    ensures
        le_bytes(v, n).len() == n,
    decreases n,
{
    if n > 0 {
        lemma_le_len(v / 256, (n - 1) as nat);
    }
}

pub open spec fn le_bytes(v: u64, n: nat) -> Seq<u8>
    decreases n,
{
    if n == 0 { Seq::empty() } else { seq![(v % 256) as u8] + le_bytes(v / 256, (n - 1) as nat) }
}

fn push_le(out: &mut Vec<u8>, v: u64, n: usize)
    ensures
        final(out)@ == old(out)@ + le_bytes(v, n as nat),
    decreases n,
{
    if n == 0 {
        assert(old(out)@ + le_bytes(v, 0) =~= old(out)@);
        return;
    }
    out.push((v % 256) as u8);
    let ghost mid = out@;
    push_le(out, v / 256, n - 1);
    assert(old(out)@ + le_bytes(v, n as nat) =~= old(out)@.push((v % 256) as u8) + le_bytes(v / 256, (n - 1) as nat));
}

fn push_zeros(out: &mut Vec<u8>, n: usize)
    ensures
        final(out)@ == old(out)@ + Seq::new(n as nat, |i: int| 0u8),
{
    let mut i: usize = 0;
    while i < n
        invariant
            i <= n,
            out@ == old(out)@ + Seq::new(i as nat, |q: int| 0u8),
        decreases n - i,
    {
        out.push(0);
        i = i + 1;
        assert(out@ =~= old(out)@ + Seq::new(i as nat, |q: int| 0u8));
    }
}

// ---- File status ----------------------------------------------------------------------

pub const STAT_LEN: usize = 144;

/// The 144-byte status record of a node: inode at 0, mode at 24 (a
/// directory or a regular file), size at 48, block size 4096 at 56,
/// zeros elsewhere.
pub open spec fn stat_record(inode: u32, is_dir: bool, size: u32) -> Seq<u8> {
    le_bytes(inode as u64, 8) + Seq::new(16, |i: int| 0u8)
        + le_bytes(if is_dir { 0o040755u64 } else { 0o100644u64 }, 4) + Seq::new(20, |i: int| 0u8)
        + le_bytes(size as u64, 8) + le_bytes(4096, 8) + Seq::new(80, |i: int| 0u8)
}

/// `fstat`: the status record (all zero on failure) and the result: 0, or
/// `-EBADF` for a descriptor that is not open.
pub open spec fn fstat_spec(v: VfsView, fd: u64) -> (i64, Seq<u8>) {
    if fd >= FD_TABLE_SIZE || !v.fds[fd as int].in_use {
        (EBADF, Seq::new(STAT_LEN as nat, |i: int| 0u8))
    } else {
        match v.fds[fd as int].node {
            None => (EBADF, Seq::new(STAT_LEN as nat, |i: int| 0u8)),
            Some(n) => {
                let node = v.nodes[n as int];
                (0, stat_record(node.inode, node.flags & VFS_DIRECTORY != 0, node.size))
            },
        }
    }
}

pub fn fstat(v: &Vfs, fd: u64) -> (r: (i64, Vec<u8>))
    requires
        v.wf(),
    ensures
        (r.0, r.1@) == fstat_spec(v.view(), fd),
{
    let mut zeros: Vec<u8> = Vec::new();
    push_zeros(&mut zeros, STAT_LEN);
    if fd >= FD_TABLE_SIZE as u64 || !v.fds[fd as usize].in_use {
        return (EBADF, zeros);
    }
    let n = match v.fds[fd as usize].node {
        None => return (EBADF, zeros),
        Some(n) => n,
    };
    assert(v.view().fds[fd as int] == v.fds@[fd as int]);
    let node = &v.nodes[n];
    proof {
        assert(v.view().nodes[n as int] == v.nodes@[n as int].view());
    }
    let mut out: Vec<u8> = Vec::new();
    push_le(&mut out, node.inode as u64, 8);
    push_zeros(&mut out, 16);
    let mode: u64 = if node.flags & VFS_DIRECTORY != 0 { 0o040755 } else { 0o100644 };
    push_le(&mut out, mode, 4);
    push_zeros(&mut out, 20);
    push_le(&mut out, node.size as u64, 8);
    push_le(&mut out, 4096, 8);
    push_zeros(&mut out, 80);
    (0, out)
}

// ---- Directory listing ------------------------------------------------------------------

/// The record length of a directory entry whose name has `n` bytes: the
/// 19-byte header, the name and its zero, rounded up to 8 bytes.
pub open spec fn reclen(n: int) -> int {
    ((20 + n + 7) / 8) * 8
}

/// A `linux_dirent64` record.
pub open spec fn dirent(ino: u64, off: u64, name: Seq<u8>, is_dir: bool) -> Seq<u8> {
    let rl = reclen(name.len() as int);
    le_bytes(ino, 8) + le_bytes(off, 8) + le_bytes(rl as u64, 2) + seq![if is_dir { 4u8 } else { 8u8 }]
        + name + Seq::new((rl - 19 - name.len()) as nat, |i: int| 0u8)
}

/// The records of the children of `dir` from child `idx` on that fit in
/// `room` bytes, and the index after the last one.
pub open spec fn dents_from(v: VfsView, dir: int, idx: int, room: int) -> (Seq<u8>, int)
    decreases v.nodes[dir].children.len() - idx,
{
    let kids = v.nodes[dir].children;
    if idx < 0 || idx >= kids.len() {
        (Seq::empty(), idx)
    } else {
        let c = v.nodes[kids[idx] as int];
        let rl = reclen(c.name.len() as int);
        if rl > room {
            (Seq::empty(), idx)
        } else {
            let ino: u64 = if c.inode != 0 { c.inode as u64 } else { (idx + 1) as u64 };
            let rest = dents_from(v, dir, idx + 1, room - rl);
            (dirent(ino, (idx + 1) as u64, c.name, c.flags & VFS_DIRECTORY != 0) + rest.0, rest.1)
        }
    }
}

/// `getdents64` on descriptor `fd` into a buffer of `count` bytes: the
/// records of the directory's children from the descriptor's offset (the
/// next child's index) on, as many as fit; the offset moves past them.
/// The result is the bytes written; `-EFAULT` for no room, `-EBADF`,
/// `-ENOTDIR`, or `-EINVAL` when a child remains but none fit.
pub open spec fn getdents_spec(v: VfsView, fd: u64, count: u64) -> (VfsView, i64, Seq<u8>) {
    if count == 0 {
        (v, EFAULT, Seq::empty())
    } else if fd >= FD_TABLE_SIZE || !v.fds[fd as int].in_use {
        (v, EBADF, Seq::empty())
    } else {
        match v.fds[fd as int].node {
            None => (v, EBADF, Seq::empty()),
            Some(n) => if !v.is_dir(n as int) || v.nodes[n as int].flags & VFS_DIRECTORY == 0 {
                (v, ENOTDIR, Seq::empty())
            } else {
                let start = v.fds[fd as int].offset as int;
                let r = dents_from(v, n as int, start, count as int);
                let v2 = with_offset(v, fd as int, r.1 as u32);
                if r.0.len() == 0 && start < v.nodes[n as int].children.len() {
                    (v2, EINVAL, r.0)
                } else {
                    (v2, r.0.len() as i64, r.0)
                }
            },
        }
    }
}

/// `getdents64` (see `getdents_spec`): the result and the bytes to copy
/// to the caller's buffer.
#[verifier::rlimit(40)]
pub fn getdents64(v: &mut Vfs, fd: u64, count: u64) -> (r: (i64, Vec<u8>))
    requires
        old(v).wf(),
    ensures
        final(v).wf(),
        (final(v).view(), r.0, r.1@) == getdents_spec(old(v).view(), fd, count),
{
    if count == 0 {
        return (EFAULT, Vec::new());
    }
    if fd >= FD_TABLE_SIZE as u64 || !v.fds[fd as usize].in_use {
        return (EBADF, Vec::new());
    }
    let f = fd as usize;
    let e = v.fds[f];
    assert(v.view().fds[f as int] == e);
    let n = match e.node {
        None => return (EBADF, Vec::new()),
        Some(n) => n,
    };
    let ghost vv = v.view();
    assert(vv.nodes[n as int] == v.nodes@[n as int].view());
    if v.nodes[n].kind != NodeKind::Dir || v.nodes[n].flags & VFS_DIRECTORY == 0 {
        return (ENOTDIR, Vec::new());
    }
    let start = e.offset;
    let nkids = v.nodes[n].children.len();
    let mut out: Vec<u8> = Vec::new();
    let mut idx: usize = start as usize;
    let mut pos: u64 = 0;
    let mut full = false;
    while idx < nkids && !full
        invariant
            idx <= nkids || idx == start,
            full ==> dents_from(vv, n as int, idx as int, (count - pos) as int).0.len() == 0,
            full ==> dents_from(vv, n as int, idx as int, (count - pos) as int).1 == idx,
            vv == v.view(),
            vv.wf(),
            (n as int) < vv.nodes.len(),
            nkids == vv.nodes[n as int].children.len(),
            nkids <= 128,
            start as int <= idx,
            pos <= count,
            pos == out@.len(),
            dents_from(vv, n as int, start as int, count as int)
                == (out@ + dents_from(vv, n as int, idx as int, (count - pos) as int).0,
                    dents_from(vv, n as int, idx as int, (count - pos) as int).1),
        decreases (nkids - idx) as int + if full { 0int } else { 1int },
    {
        let c = v.nodes[n].children[idx];
        assert(crate::vfs::node_ok(vv.nodes[n as int], vv.nodes.len() as int));
        assert(vv.nodes[n as int].children[idx as int] == c);
        let child = &v.nodes[c];
        assert(vv.nodes[c as int] == v.nodes@[c as int].view());
        assert(crate::vfs::node_ok(vv.nodes[c as int], vv.nodes.len() as int));
        let nl = child.name.len() as u64;
        let rl: u64 = ((20 + nl + 7) / 8) * 8;
        if rl > count - pos {
            full = true;
            continue;
        }
        let ino: u64 = if child.inode != 0 { child.inode as u64 } else { (idx + 1) as u64 };
        let ghost before = out@;
        push_le(&mut out, ino, 8);
        push_le(&mut out, (idx + 1) as u64, 8);
        push_le(&mut out, rl, 2);
        out.push(if child.flags & VFS_DIRECTORY != 0 { 4u8 } else { 8u8 });
        proof {
            lemma_le_len(ino, 8);
            lemma_le_len((idx + 1) as u64, 8);
            lemma_le_len(rl, 2);
            assert(out@ =~= before + le_bytes(ino, 8) + le_bytes((idx + 1) as u64, 8) + le_bytes(rl, 2)
                + seq![if child.flags & VFS_DIRECTORY != 0 { 4u8 } else { 8u8 }]);
        }
        let mut k: usize = 0;
        while k < child.name.len()
            invariant
                k <= child.name@.len(),
                out@.len() == before.len() as int + 19 + k,
                out@.take(before.len() as int + 19) == before + le_bytes(ino, 8) + le_bytes((idx + 1) as u64, 8) + le_bytes(rl, 2)
                    + seq![if child.flags & VFS_DIRECTORY != 0 { 4u8 } else { 8u8 }],
                out@.subrange(before.len() as int + 19, out@.len() as int) == child.name@.take(k as int),
            decreases child.name.len() - k,
        {
            out.push(child.name[k]);
            k = k + 1;
            assert(out@.subrange(before.len() as int + 19, out@.len() as int) =~= child.name@.take(k as int));
        }
        proof {
            let hdr = le_bytes(ino, 8) + le_bytes((idx + 1) as u64, 8) + le_bytes(rl, 2)
                + seq![if child.flags & VFS_DIRECTORY != 0 { 4u8 } else { 8u8 }];
            assert(child.name@.take(child.name@.len() as int) =~= child.name@);
            assert(out@ =~= out@.take(before.len() as int + 19) + out@.subrange(before.len() as int + 19, out@.len() as int));
            assert(out@ =~= before + hdr + child.name@);
        }
        let ghost mid = out@;
        push_zeros(&mut out, (rl - 19 - nl) as usize);
        proof {
            let d = dirent(ino, (idx + 1) as u64, child.name@, child.flags & VFS_DIRECTORY != 0);
            assert(out@ =~= before + d);
            let rest = dents_from(vv, n as int, idx + 1, (count - pos - rl) as int);
            assert(before + (d + rest.0) =~= before + d + rest.0);
        }
        pos = pos + rl;
        idx = idx + 1;
    }
    proof {
        let tail = dents_from(vv, n as int, idx as int, (count - pos) as int);
        assert(tail.0 =~= Seq::<u8>::empty());
        assert(out@ + tail.0 =~= out@);
        assert(tail.1 == idx);
    }
    v.set_offset(f, idx as u32);
    if pos == 0 && (start as usize) < nkids {
        return (EINVAL, out);
    }
    (out.len() as i64, out)
}

// ---- Working directory, memory, random bytes ----------------------------------------

/// `getcwd`: the directory is always the root, `/` and its zero;
/// `-EFAULT` for no room at all, `-ERANGE` for a buffer under 2 bytes.
pub fn getcwd(size: u64) -> (r: Result<Vec<u8>, i64>)
    ensures
        size == 0 ==> r == Err::<Vec<u8>, i64>(EFAULT),
        size == 1 ==> r == Err::<Vec<u8>, i64>(ERANGE),
        size >= 2 ==> (r matches Ok(b) && b@ == seq![0x2fu8, 0]),
{
    if size == 0 {
        return Err(EFAULT);
    }
    if size < 2 {
        return Err(ERANGE);
    }
    Ok(vec![0x2fu8, 0])
}

pub const USER_MAPPED_LIMIT: u64 = 0x1_0000_0000;

/// What `brk` does: the result when every page needed is mapped, and the
/// page range (from `start` to `end`) whose pages at or above 4 GiB must
/// be allocated and mapped first; the break moves only if they all are.
pub struct BrkPlan {
    pub result: u64,
    pub moves: bool,
    pub start: u64,
    pub end: u64,
}

/// `brk(addr)` with the break at `cur`: 0 or an address below the break
/// asks for the break; an address at or above 4 GiB needs the pages from
/// the break's page up to `addr` rounded up mapped.
pub fn brk_plan(cur: u64, addr: u64) -> (r: BrkPlan)
    ensures
        (addr == 0 || addr < cur) ==> r.result == cur && !r.moves && r.start == r.end,
        !(addr == 0 || addr < cur) ==> r.result == addr && r.moves && (if addr >= USER_MAPPED_LIMIT {
            r.start == cur & !0xfffu64 && r.end == vstd::wrapping::u64_specs::wrapping_add(addr, 0xfff) & !0xfffu64
        } else {
            r.start == r.end
        }),
{
    if addr == 0 || addr < cur {
        return BrkPlan { result: cur, moves: false, start: 0, end: 0 };
    }
    if addr >= USER_MAPPED_LIMIT {
        return BrkPlan { result: addr, moves: true, start: cur & !0xfffu64, end: addr.wrapping_add(0xfff) & !0xfffu64 };
    }
    BrkPlan { result: addr, moves: true, start: 0, end: 0 }
}

/// An anonymous mapping: where it goes and how many pages it takes.
pub struct MmapPlan {
    pub vaddr: u64,
    pub pages: u64,
}

/// `mmap(addr, len, flags)`: `len` rounded up to pages; at `addr` rounded
/// down to a page with `MAP_FIXED` (and a nonzero `addr`), else at the
/// next free address (`next`, rounded up to a page), which then moves past
/// the mapping.  `-EINVAL` for a zero length.
pub fn mmap_plan(next: &mut u64, addr: u64, len: u64, flags: u64) -> (r: Result<MmapPlan, i64>)
    ensures
        len == 0 ==> r == Err::<MmapPlan, i64>(EINVAL) && *final(next) == *old(next),
        len != 0 ==> ({
            let pages = vstd::wrapping::u64_specs::wrapping_add(len, 0xfff) / 0x1000;
            &&& r matches Ok(p)
            &&& p.pages == pages
            &&& if addr != 0 && flags & 0x10 != 0 {
                p.vaddr == addr & !0xfffu64 && *final(next) == *old(next)
            } else {
                let v = vstd::wrapping::u64_specs::wrapping_add(*old(next), 0xfff) & !0xfffu64;
                p.vaddr == v && *final(next) == vstd::wrapping::u64_specs::wrapping_add(v,
                    vstd::wrapping::u64_specs::wrapping_mul(pages, 0x1000))
            }
        }),
{
    if len == 0 {
        return Err(EINVAL);
    }
    let pages = len.wrapping_add(0xfff) / 0x1000;
    let vaddr = if addr != 0 && flags & 0x10 != 0 {
        addr & !0xfffu64
    } else {
        let v = next.wrapping_add(0xfff) & !0xfffu64;
        *next = v.wrapping_add(pages.wrapping_mul(0x1000));
        v
    };
    Ok(MmapPlan { vaddr, pages })
}

pub const LCG_MUL: u64 = 6364136223846793005;
pub const LCG_ADD: u64 = 1442695040888963407;

pub open spec fn lcg_step(s: u64) -> u64 {
    vstd::wrapping::u64_specs::wrapping_add(vstd::wrapping::u64_specs::wrapping_mul(s, LCG_MUL), LCG_ADD)
}

/// The generator's state after `k` steps from the timer count (the seed
/// itself is one step from the count).
pub open spec fn lcg_state(ticks: u32, k: nat) -> u64
    decreases k,
{
    if k == 0 { lcg_step(ticks as u64) } else { lcg_step(lcg_state(ticks, (k - 1) as nat)) }
}

/// `getrandom`: `count` bytes from a linear congruential generator seeded
/// from the timer count; byte `i` is bits 33 to 40 of the state after
/// `i + 1` steps.
pub fn random_bytes(ticks: u32, count: usize) -> (r: Vec<u8>)
    ensures
        r@.len() == count,
        forall|i: int| 0 <= i < count ==> r@[i] == #[trigger] ((lcg_state(ticks, (i + 1) as nat) >> 33u64) as u8),
{
    let mut state: u64 = (ticks as u64).wrapping_mul(LCG_MUL).wrapping_add(LCG_ADD);
    let mut r: Vec<u8> = Vec::new();
    let mut i: usize = 0;
    while i < count
        invariant
            i <= count,
            r@.len() == i,
            state == lcg_state(ticks, i as nat),
            forall|j: int| 0 <= j < i ==> r@[j] == #[trigger] ((lcg_state(ticks, (j + 1) as nat) >> 33u64) as u8),
        decreases count - i,
    {
        state = state.wrapping_mul(LCG_MUL).wrapping_add(LCG_ADD);
        r.push((state >> 33u64) as u8);
        i = i + 1;
    }
    r
}

// ---- The calls on files ------------------------------------------------------------

/// `mkdir`: `-EFAULT` for a null path; otherwise every missing directory
/// of the path is made, and the result is 0, or `-ENOMEM` when a step
/// failed.
pub fn sys_mkdir(v: &mut Vfs, path: Option<&[u8]>) -> (r: i64)
    requires
        old(v).wf(),
        path matches Some(p) ==> old(v).nodes@.len() + p@.len() < usize::MAX,
    ensures
        final(v).wf(),
        match path {
            None => r == EFAULT && final(v).view() == old(v).view(),
            Some(p) => final(v).view() == mkdir_p_spec(old(v).view(), cstr(p@)).0
                && r == (if mkdir_p_spec(old(v).view(), cstr(p@)).1 is Some { 0 } else { ENOMEM }),
        },
{
    match path {
        None => EFAULT,
        Some(p) => match v.mkdir_p(p) {
            Some(_) => 0,
            None => ENOMEM,
        },
    }
}

/// `unlink`: `-EFAULT` for a null path; otherwise the path's node leaves
/// its directory, and the result is 0, or `-ENOENT` when it could not.
pub fn sys_unlink(v: &mut Vfs, path: Option<&[u8]>) -> (r: i64)
    requires
        old(v).wf(),
    ensures
        final(v).wf(),
        match path {
            None => r == EFAULT && final(v).view() == old(v).view(),
            Some(p) => final(v).view() == unlink_path_spec(old(v).view(), cstr(p@)).0
                && r == (if unlink_path_spec(old(v).view(), cstr(p@)).1 < 0 { ENOENT } else { 0 }),
        },
{
    match path {
        None => EFAULT,
        Some(p) => if v.unlink_path(p) < 0 { ENOENT } else { 0 },
    }
}

/// `rename`: `-EFAULT` when either path is null; otherwise see
/// `rename_spec`.
pub fn sys_rename(v: &mut Vfs, old_path: Option<&[u8]>, new_path: Option<&[u8]>) -> (r: i64)
    requires
        old(v).wf(),
    ensures
        final(v).wf(),
        match (old_path, new_path) {
            (Some(o), Some(n)) => (final(v).view(), r) == rename_spec(old(v).view(), cstr(o@), cstr(n@)),
            _ => r == EFAULT && final(v).view() == old(v).view(),
        },
{
    match (old_path, new_path) {
        (Some(o), Some(n)) => v.rename(o, n),
        _ => EFAULT,
    }
}

/// What a `read` does.
pub enum ReadAction {
    /// The result and the bytes to copy to the caller's buffer.
    Done(i64, Vec<u8>),
    /// Standard input: wait for one key, store it, return 1.
    ReadKey,
    /// A console device: read a line from the keyboard.
    ReadLine,
}

/// `read`: descriptor 0 is the keyboard (nothing for a zero length);
/// any other goes to the file table.
pub fn sys_read(v: &mut Vfs, fd: u64, len: u64) -> (r: ReadAction)
    requires
        old(v).wf(),
    ensures
        final(v).wf(),
        fd == 0 ==> final(v).view() == old(v).view() && (if len == 0 {
            r matches ReadAction::Done(c, b) && c == 0 && b@.len() == 0
        } else {
            r is ReadKey
        }),
        fd != 0 ==> match r {
            ReadAction::ReadLine => fd_read_spec(old(v).view(), fd as i32, len as u32) is None
                && final(v).view() == old(v).view(),
            ReadAction::Done(c, b) => fd_read_spec(old(v).view(), fd as i32, len as u32)
                matches Some((v2, c2, b2)) && final(v).view() == v2 && c == c2 as i64 && b@ == b2,
            ReadAction::ReadKey => false,
        },
{
    if fd == 0 {
        if len == 0 {
            return ReadAction::Done(0, Vec::new());
        }
        return ReadAction::ReadKey;
    }
    match v.vfs_fd_read(fd as i32, len as u32) {
        FdRead::Done(c, b) => ReadAction::Done(c as i64, b),
        FdRead::Console => ReadAction::ReadLine,
    }
}

/// What a `write` does.
pub enum WriteAction {
    /// Standard output or error, or a console device: put the bytes on
    /// the screen; the result is the length given.
    Screen,
    /// Written through the file table, with this result.
    Done(i64),
}

/// `write`: descriptors 1 and 2 are the screen; any other goes to the
/// file table.
pub fn sys_write(v: &mut Vfs, fd: u64, data: &[u8]) -> (r: WriteAction)
    requires
        old(v).wf(),
        data@.len() <= u32::MAX,
        !fd_write_too_big(old(v).view(), fd as i32, data@.len() as int),
    ensures
        final(v).wf(),
        (fd == 1 || fd == 2) ==> r is Screen && final(v).view() == old(v).view(),
        !(fd == 1 || fd == 2) ==> match r {
            WriteAction::Screen => fd_write_spec(old(v).view(), fd as i32, data@) is None
                && final(v).view() == old(v).view(),
            WriteAction::Done(c) => fd_write_spec(old(v).view(), fd as i32, data@)
                matches Some((v2, c2)) && final(v).view() == v2 && c == c2 as i64,
        },
{
    if fd == 1 || fd == 2 {
        return WriteAction::Screen;
    }
    match v.vfs_fd_write(fd as i32, data) {
        WriteResult::Done(c) => WriteAction::Done(c as i64),
        WriteResult::Console => WriteAction::Screen,
    }
}

/// `arch_prctl`: setting the FS or GS base is a write of `addr` to that
/// base's model-specific register (returned with it); any other code is
/// `-EINVAL`.
pub fn sys_arch_prctl(code: u64, addr: u64) -> (r: Result<(u32, u64), i64>)
    ensures
        code == 0x1002 ==> r == Ok::<(u32, u64), i64>((0xC000_0100u32, addr)),
        code == 0x1001 ==> r == Ok::<(u32, u64), i64>((0xC000_0101u32, addr)),
        code != 0x1002 && code != 0x1001 ==> r == Err::<(u32, u64), i64>(EINVAL),
{
    if code == 0x1002 {
        Ok((0xC000_0100, addr))
    } else if code == 0x1001 {
        Ok((0xC000_0101, addr))
    } else {
        Err(EINVAL)
    }
}

} // verus!
