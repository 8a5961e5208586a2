//! The FAT16 disk seen as the directory `/disk`: its files listed by name
//! and size (at most 64), found by name, read at an offset, and written at
//! an offset (a write past the start reads the file, lays the new bytes
//! over it, zero-filling any gap, and writes the whole back).

use vstd::prelude::*;
use crate::fat16::{Fat16, FatView, files_from, name_from83_spec, entry_size, read_file_spec, write_file_spec, name83, lemma_write_then_read};
use crate::string::{cstr, strlen, lemma_cstr, bytes_eq};
use crate::vfs::{Vfs, VfsView, dir_node, stored_name, add_child_spec};

verus! {

pub const FAT16_VFS_MAX_FILES: usize = 64;

/// A file of the disk directory: its name (a C string), its size and its
/// index in the listing.
pub struct DiskFile {
    pub name: Vec<u8>,
    pub size: u32,
    pub inode: u32,
}

pub struct DiskFileView {
    pub name: Seq<u8>,
    pub size: u32,
    pub inode: u32,
}

impl DiskFile {
    pub open spec fn view(&self) -> DiskFileView {
        DiskFileView { name: self.name@, size: self.size, inode: self.inode }
    }
}

pub open spec fn views(s: Seq<DiskFile>) -> Seq<DiskFileView> {
    s.map_values(|f: DiskFile| f.view())
}

/// The first 64 regular files of the root directory, as the directory
/// lists them: readable name, size, index.
pub open spec fn listing(v: FatView) -> Seq<DiskFileView> {
    let fs = files_from(v, 0);
    let n = if fs.len() < FAT16_VFS_MAX_FILES { fs.len() as int } else { FAT16_VFS_MAX_FILES as int };
    Seq::new(n as nat, |i: int| DiskFileView { name: cstr(name_from83_spec(fs[i])), size: entry_size(fs[i]), inode: i as u32 })
}

/// The first file of `files` from `k` on whose name is `key`.
pub open spec fn first_named(files: Seq<DiskFileView>, key: Seq<u8>, k: int) -> Option<int>
    decreases files.len() - k,
{
    if k < 0 || k >= files.len() {
        None
    } else if files[k].name == key {
        Some(k)
    } else {
        first_named(files, key, k + 1)
    }
}

/// A five-byte buffer holding four nonzero bytes and a zero holds a C
/// string of length 4.
proof fn lemma_cstr_len4(s: Seq<u8>)
    requires
        s.len() == 5,
        s[0] != 0 && s[1] != 0 && s[2] != 0 && s[3] != 0,
        s[4] == 0,
    ensures
        crate::string::cstr_len(s) == 4,
{
    crate::string::lemma_zero_from(s, 0);
    assert(crate::string::zero_from(s, 4) == 4);
    assert(crate::string::zero_from(s, 3) == 4);
    assert(crate::string::zero_from(s, 2) == 4);
    assert(crate::string::zero_from(s, 1) == 4);
}

fn c_string_of(s: &[u8]) -> (r: Vec<u8>)
    ensures
        r@ == cstr(s@),
{
    let n = strlen(s);
    proof { lemma_cstr(s@); }
    let mut r: Vec<u8> = Vec::new();
    let mut i: usize = 0;
    while i < n
        invariant
            i <= n,
            n <= s@.len(),
            r@ == s@.take(i as int),
        decreases n - i,
    {
        r.push(s[i]);
        i = i + 1;
        assert(r@ =~= s@.take(i as int));
    }
    r
}

/// Read the disk directory's listing afresh.
pub fn refresh_nodes(fs: &Fat16) -> (r: Vec<DiskFile>)
    requires
        fs.wf(),
    ensures
        views(r@) == listing(fs.view()),
{
    let all = fs.list_files();
    let ghost l = listing(fs.view());
    let n = if all.len() < FAT16_VFS_MAX_FILES { all.len() } else { FAT16_VFS_MAX_FILES };
    let mut out: Vec<DiskFile> = Vec::new();
    let mut i: usize = 0;
    while i < n
        invariant
            i <= n,
            n <= all@.len(),
            n == l.len(),
            all@.len() == files_from(fs.view(), 0).len(),
            forall|k: int| 0 <= k < all@.len() ==> (#[trigger] all@[k]).0@ == name_from83_spec(files_from(fs.view(), 0)[k])
                && all@[k].1 == entry_size(files_from(fs.view(), 0)[k]),
            l == listing(fs.view()),
            views(out@) == l.take(i as int),
        decreases n - i,
    {
        let name = c_string_of(all[i].0.as_slice());
        let f = DiskFile { name, size: all[i].1, inode: i as u32 };
        assert(f.view() == l[i as int]);
        let ghost before = out@;
        assert(views(before).len() == before.len());
        assert(before.len() == i);
        out.push(f);
        assert(out@ == before.push(f));
        assert(views(out@).len() == i + 1);
        assert forall|k: int| 0 <= k <= i implies #[trigger] views(out@)[k] == l[k] by {
            if k < i {
                assert(out@[k] == before[k]);
                assert(views(before)[k] == l.take(i as int)[k]);
            }
        }
        i = i + 1;
        assert(views(out@) =~= l.take(i as int));
    }
    assert(l.take(n as int) =~= l);
    out
}

/// Entry `index` of the disk directory.
pub fn fat16_vfs_readdir(fs: &Fat16, index: u32) -> (r: Option<DiskFile>)
    requires
        fs.wf(),
    ensures
        (index as int) < listing(fs.view()).len() ==> (r matches Some(f) && f.view() == listing(fs.view())[index as int]),
        (index as int) >= listing(fs.view()).len() ==> r is None,
{
    let mut files = refresh_nodes(fs);
    if index as usize >= files.len() {
        return None;
    }
    let ghost fv = views(files@);
    let f = files.swap_remove(index as usize);
    assert(f.view() == fv[index as int]);
    Some(f)
}

/// The disk file named by the C string `name`.
pub fn fat16_vfs_finddir(fs: &Fat16, name: &[u8]) -> (r: Option<DiskFile>)
    requires
        fs.wf(),
    ensures
        match first_named(listing(fs.view()), cstr(name@), 0) {
            Some(i) => (r matches Some(f) && f.view() == listing(fs.view())[i]),
            None => r is None,
        },
{
    let key = c_string_of(name);
    let mut files = refresh_nodes(fs);
    let ghost fv = views(files@);
    let mut i: usize = 0;
    while i < files.len()
        invariant
            i <= files@.len(),
            fv == views(files@),
            fv == listing(fs.view()),
            key@ == cstr(name@),
            first_named(fv, key@, i as int) == first_named(fv, key@, 0),
        decreases files.len() - i,
    {
        if bytes_eq(files[i].name.as_slice(), key.as_slice()) {
            assert(fv[i as int].name == key@);
            let f = files.swap_remove(i);
            assert(f.view() == fv[i as int]);
            return Some(f);
        }
        i = i + 1;
    }
    None
}

/// Reading `size` bytes at `offset` from the disk file `name` of size
/// `node_size`: nothing at or past the end; otherwise the file read in full
/// and the bytes that it has from `offset` on, at most `size`; none when
/// the file cannot be read.
pub open spec fn vfs_read_spec(v: FatView, name: Seq<u8>, node_size: u32, offset: u32, size: u32) -> Option<Seq<u8>> {
    if node_size == 0 || offset >= node_size {
        Some(Seq::empty())
    } else {
        match read_file_spec(v, cstr(name), node_size) {
            None => None,
            Some(b) => if offset >= b.len() {
                Some(Seq::empty())
            } else {
                let avail = b.len() - offset;
                let sz = if size > avail { avail } else { size as int };
                Some(b.subrange(offset as int, offset + sz))
            },
        }
    }
}

pub fn fat16_vfs_read(fs: &Fat16, name: &[u8], node_size: u32, offset: u32, size: u32) -> (r: Option<Vec<u8>>)
    requires
        fs.wf(),
    ensures
        match r {
            None => vfs_read_spec(fs.view(), name@, node_size, offset, size) is None,
            Some(b) => vfs_read_spec(fs.view(), name@, node_size, offset, size) == Some(b@),
        },
{
    if node_size == 0 || offset >= node_size {
        return Some(Vec::new());
    }
    let buf = match fs.read_file(name, node_size) {
        None => return None,
        Some(b) => b,
    };
    let avail = buf.len();
    if offset as usize >= avail {
        return Some(Vec::new());
    }
    let mut sz = size as usize;
    if sz > avail - offset as usize {
        sz = avail - offset as usize;
    }
    let mut out: Vec<u8> = Vec::new();
    let start = offset as usize;
    let mut i: usize = 0;
    while i < sz
        invariant
            i <= sz,
            start + sz <= buf.len(),
            out@ == buf@.subrange(start as int, start + i),
        decreases sz - i,
    {
        out.push(buf[start + i]);
        i = i + 1;
        assert(out@ =~= buf@.subrange(start as int, start + i));
    }
    Some(out)
}

/// The whole file a write at `offset` puts on the disk: `data` itself at
/// offset 0; otherwise `max(offset + |data|, node_size)` bytes of zeros
/// with what reading the file gave (`old`) at the start and `data` laid
/// over them at `offset`.
pub open spec fn overlay(old: Seq<u8>, offset: int, data: Seq<u8>, new_size: int) -> Seq<u8> {
    Seq::new(new_size as nat, |j: int|
        if offset <= j < offset + data.len() { data[j - offset] }
        else if j < old.len() { old[j] }
        else { 0u8 })
}

pub open spec fn new_size_of(node_size: u32, offset: u32, len: int) -> int {
    if offset + len < node_size { node_size as int } else { offset + len }
}

/// The bytes written back for a write at a nonzero offset.
pub open spec fn rewritten(v: FatView, name: Seq<u8>, node_size: u32, offset: u32, data: Seq<u8>) -> Seq<u8> {
    let old = if node_size > 0 {
        match read_file_spec(v, cstr(name), node_size) { Some(b) => b, None => Seq::empty() }
    } else {
        Seq::empty()
    };
    overlay(old, offset as int, data, new_size_of(node_size, offset, data.len() as int))
}

/// Writing `data` at `offset` to the disk file `name` of size `node_size`:
/// the file system after, the result (the byte count, or -1), and the
/// file's size after.
pub open spec fn vfs_write_spec(v: FatView, name: Seq<u8>, node_size: u32, offset: u32, data: Seq<u8>) -> (FatView, i32, u32) {
    let whole = if offset == 0 { data } else { rewritten(v, name, node_size, offset, data) };
    let (v2, rc) = write_file_spec(v, cstr(name), whole);
    if rc < 0 { (v2, -1i32, node_size) } else { (v2, data.len() as i32, whole.len() as u32) }
}

pub fn fat16_vfs_write(fs: &mut Fat16, name: &[u8], node_size: u32, offset: u32, data: &[u8]) -> (r: (i32, u32))
    requires
        old(fs).wf(),
        offset + data@.len() + old(fs).bpb.cluster_size <= i32::MAX,
        node_size + old(fs).bpb.cluster_size <= i32::MAX,
    ensures
        final(fs).wf(),
        (final(fs).view(), r.0, r.1) == vfs_write_spec(old(fs).view(), name@, node_size, offset, data@),
{
    let ghost v0 = fs.view();
    proof { lemma_cstr(name@); }
    if offset == 0 {
        let rc = fs.write_file(name, data);
        if rc < 0 {
            return (-1, node_size);
        }
        return (data.len() as i32, data.len() as u32);
    }
    let end = offset as usize + data.len();
    let new_size = if end < node_size as usize { node_size as usize } else { end };
    let old_bytes: Vec<u8> = if node_size > 0 {
        match fs.read_file(name, node_size) {
            Some(b) => b,
            None => Vec::new(),
        }
    } else {
        Vec::new()
    };
    let mut buf: Vec<u8> = Vec::new();
    let start = offset as usize;
    let mut j: usize = 0;
    while j < new_size
        invariant
            j <= new_size,
            start == offset as usize,
            start + data@.len() == end,
            new_size as int == new_size_of(node_size, offset, data@.len() as int),
            buf@ == overlay(old_bytes@, offset as int, data@, new_size as int).take(j as int),
        decreases new_size - j,
    {
        let b = if start <= j && j < end {
            data[j - start]
        } else if j < old_bytes.len() {
            old_bytes[j]
        } else {
            0u8
        };
        assert(b == overlay(old_bytes@, offset as int, data@, new_size as int)[j as int]);
        buf.push(b);
        j = j + 1;
        assert(buf@ =~= overlay(old_bytes@, offset as int, data@, new_size as int).take(j as int));
    }
    proof {
        assert(buf@ =~= overlay(old_bytes@, offset as int, data@, new_size as int));
        assert(buf@ == rewritten(v0, name@, node_size, offset, data@));
    }
    let rc = fs.write_file(name, buf.as_slice());
    if rc < 0 {
        return (-1, node_size);
    }
    (data.len() as i32, new_size as u32)
}

/// Create the directory `/disk` under the root (the disk's files are
/// looked up through the functions above).
pub fn init(v: &mut Vfs) -> (r: i32)
    requires
        old(v).wf(),
        old(v).nodes@.len() < usize::MAX,
    ensures
        final(v).wf(),
        ({
            let n = old(v).view().nodes.len() as int;
            let v1 = VfsView { nodes: old(v).view().nodes.push(dir_node(seq![0x64u8, 0x69, 0x73, 0x6b])), ..old(v).view() };
            (final(v).view(), r) == add_child_spec(v1, old(v).view().root as int, n)
        }),
{
    let name: [u8; 5] = [0x64, 0x69, 0x73, 0x6b, 0];
    let d = v.make_dir(&name);
    proof {
        assert(cstr(name@) =~= seq![0x64u8, 0x69, 0x73, 0x6b]) by {
            lemma_cstr(name@);
            assert(name@[4] == 0u8);
            assert(name@[0] != 0 && name@[1] != 0 && name@[2] != 0 && name@[3] != 0);
            lemma_cstr_len4(name@);
        }
        assert(stored_name(cstr(name@)) == seq![0x64u8, 0x69, 0x73, 0x6b]);
    }
    let root = v.root;
    v.add_child(root, d)
}

/// A disk file written from its start reads back, through the directory,
/// as written (for a name whose directory form does not begin with a zero
/// byte or the deleted-entry mark 0xE5).
pub proof fn lemma_disk_write_then_read(v: FatView, name: Seq<u8>, node_size: u32, data: Seq<u8>)
    requires
        v.wf(),
        data.len() + v.bpb.cluster_size <= i32::MAX,
        name83(cstr(name))[0] != 0,
        name83(cstr(name))[0] != 0xe5,
        vfs_write_spec(v, name, node_size, 0, data).1 >= 0,
    ensures
        ({
            let (v2, rc, size) = vfs_write_spec(v, name, node_size, 0, data);
            &&& rc == data.len()
            &&& size == data.len()
            &&& vfs_read_spec(v2, name, size, 0, size) == Some(data)
        }),
{
    let w = write_file_spec(v, cstr(name), data);
    assert(w.1 == 0i32 || w.1 == -1i32);
    lemma_write_then_read(v, cstr(name), data, data.len() as u32);
    assert(data.take(data.len() as int) =~= data);
    assert(data.subrange(0, data.len() as int) =~= data);
}

} // verus!
