//! The initial ramdisk image handed over by the boot loader.  Its format:
//! a little-endian 32-bit file count, then for each file a 64-byte
//! zero-padded name, a little-endian 32-bit size and the file's bytes.
//! At most 64 files are taken.

use vstd::prelude::*;
use crate::multiboot::{le32, read_le32};
use crate::string::{cstr, cstr_len, lemma_cstr, strlen, bytes_eq};

verus! {

pub const INITRD_MAX_FILES: u32 = 64;
pub const INITRD_NAME_LEN: usize = 64;
/// Bytes of a file's header: its name and its size.
pub const INITRD_HEADER_LEN: usize = 68;

pub struct InitrdFile {
    /// The name, without its terminating zero (at most 63 bytes).
    pub name: Vec<u8>,
    pub size: u32,
    pub data: Vec<u8>,
}

pub struct InitrdView {
    pub name: Seq<u8>,
    pub size: u32,
    pub data: Seq<u8>,
}

impl InitrdFile {
    pub open spec fn view(&self) -> InitrdView {
        InitrdView { name: self.name@, size: self.size, data: self.data@ }
    }
}

/// The files of a ramdisk image.
pub struct InitrdTable {
    pub files: Vec<InitrdFile>,
}

impl InitrdTable {
    pub open spec fn view(&self) -> Seq<InitrdView> {
        self.files@.map_values(|f: InitrdFile| f.view())
    }

    /// At most 64 files; each name at most 63 bytes with no zero byte;
    /// each file holds exactly its size in bytes.
    pub open spec fn wf(&self) -> bool {
        &&& self.view().len() <= INITRD_MAX_FILES
        &&& forall|i: int| 0 <= i < self.view().len() ==> initrd_file_ok(#[trigger] self.view()[i])
    }
}

pub open spec fn initrd_file_ok(f: InitrdView) -> bool {
    &&& f.name.len() <= 63
    &&& forall|k: int| 0 <= k < f.name.len() ==> f.name[k] != 0
    &&& f.data.len() == f.size
}

/// The file whose header starts at `pos`: its name is the C string in the
/// first 63 bytes of the 64-byte name field.
pub open spec fn entry_at(img: Seq<u8>, pos: int) -> InitrdView {
    let size = le32(img, pos + 64);
    InitrdView {
        name: cstr(img.subrange(pos, pos + 63)),
        size,
        data: img.subrange(pos + 68, pos + 68 + size),
    }
}

/// The `k` files stored from `pos` on; none when the image ends inside
/// one of them.
pub open spec fn entries(img: Seq<u8>, pos: int, k: nat) -> Option<Seq<InitrdView>>
    decreases k,
{
    if k == 0 {
        Some(Seq::empty())
    } else if pos < 0 || pos + 68 > img.len() || pos + 68 + le32(img, pos + 64) > img.len() {
        None
    } else {
        match entries(img, pos + 68 + le32(img, pos + 64), (k - 1) as nat) {
            None => None,
            Some(rest) => Some(seq![entry_at(img, pos)] + rest),
        }
    }
}

/// The number of files taken from an image: its count, at most 64.
pub open spec fn file_count(img: Seq<u8>) -> nat {
    let c = le32(img, 0);
    if c > INITRD_MAX_FILES { INITRD_MAX_FILES as nat } else { c as nat }
}

/// The files of an image; none when it is too short for what it claims.
pub open spec fn initrd_files(img: Seq<u8>) -> Option<Seq<InitrdView>> {
    if img.len() < 4 {
        None
    } else {
        entries(img, 4, file_count(img))
    }
}

/// Read the file whose header starts at `pos`.
fn read_entry(img: &[u8], pos: usize) -> (r: InitrdFile)
    requires
        pos + 68 <= img@.len(),
        pos + 68 + le32(img@, pos + 64) <= img@.len(),
    ensures
        r.view() == entry_at(img@, pos as int),
        initrd_file_ok(r.view()),
{
    let l = img.len();
    let mut raw: Vec<u8> = Vec::new();
    let mut i: usize = 0;
    while i < 63
        invariant
            i <= 63,
            pos + 68 <= img@.len(),
            l == img@.len(),
            raw@ == img@.subrange(pos as int, pos + i),
        decreases 63 - i,
    {
        raw.push(img[pos + i]);
        i = i + 1;
        assert(raw@ =~= img@.subrange(pos as int, pos + i));
    }
    let n = strlen(&raw);
    proof { lemma_cstr(raw@); }
    let mut name: Vec<u8> = Vec::new();
    let mut j: usize = 0;
    while j < n
        invariant
            j <= n,
            n == cstr_len(raw@),
            n <= raw@.len(),
            name@ == raw@.take(j as int),
        decreases n - j,
    {
        name.push(raw[j]);
        j = j + 1;
        assert(name@ =~= raw@.take(j as int));
    }
    let size = read_le32(img, pos + 64);
    let start = pos + 68;
    let mut data: Vec<u8> = Vec::new();
    let mut k: usize = 0;
    while k < size as usize
        invariant
            k <= size,
            start + size <= img@.len(),
            l == img@.len(),
            start == pos + 68,
            data@ == img@.subrange(start as int, start + k),
        decreases size - k,
    {
        data.push(img[start + k]);
        k = k + 1;
        assert(data@ =~= img@.subrange(start as int, start + k));
    }
    proof {
        assert(name@ =~= cstr(raw@));
    }
    InitrdFile { name, size, data }
}

/// Read the files of a ramdisk image.  Returns none where the image ends
/// before the files it claims do.
pub fn parse_initrd(img: &[u8]) -> (r: Option<InitrdTable>)
    ensures
        match r {
            None => initrd_files(img@) is None,
            Some(t) => initrd_files(img@) == Some(t.view()) && t.wf(),
        },
{
    if img.len() < 4 {
        return None;
    }
    let mut count = read_le32(img, 0);
    if count > INITRD_MAX_FILES {
        count = INITRD_MAX_FILES;
    }
    assert(count == file_count(img@));
    let mut files: Vec<InitrdFile> = Vec::new();
    let mut pos: usize = 4;
    let mut i: u32 = 0;
    while i < count
        invariant
            i <= count,
            count <= INITRD_MAX_FILES,
            count == file_count(img@),
            4 <= pos <= img@.len(),
            img@.len() >= 4,
            files@.len() == i,
            forall|q: int| 0 <= q < i ==> initrd_file_ok(#[trigger] files@[q].view()),
            match entries(img@, pos as int, (count - i) as nat) {
                None => entries(img@, 4, count as nat) is None,
                Some(rest) => entries(img@, 4, count as nat) == Some(files@.map_values(|f: InitrdFile| f.view()) + rest),
            },
        decreases count - i,
    {
        if img.len() - pos < INITRD_HEADER_LEN {
            proof { assert(entries(img@, pos as int, (count - i) as nat) is None); }
            return None;
        }
        let size = read_le32(img, pos + 64);
        if (img.len() - pos - INITRD_HEADER_LEN) < size as usize {
            proof { assert(entries(img@, pos as int, (count - i) as nat) is None); }
            return None;
        }
        let ghost old_files = files@.map_values(|f: InitrdFile| f.view());
        let f = read_entry(img, pos);
        let ghost fv = f.view();
        files.push(f);
        proof {
            let m = (count - i) as nat;
            assert(m > 0);
            let nxt = pos + 68 + size;
            match entries(img@, nxt, (m - 1) as nat) {
                None => {},
                Some(rest) => {
                    assert(entries(img@, pos as int, m) == Some(seq![entry_at(img@, pos as int)] + rest));
                    assert(files@.map_values(|f: InitrdFile| f.view()) =~= old_files.push(fv));
                    assert(old_files + (seq![fv] + rest) =~= old_files.push(fv) + rest);
                },
            }
        }
        pos = pos + INITRD_HEADER_LEN + size as usize;
        i = i + 1;
    }
    proof {
        assert(entries(img@, pos as int, 0) == Some(Seq::<InitrdView>::empty()));
        assert(files@.map_values(|f: InitrdFile| f.view()) + Seq::<InitrdView>::empty() =~= files@.map_values(|f: InitrdFile| f.view()));
    }
    Some(InitrdTable { files })
}

impl InitrdTable {
    pub fn get_count(&self) -> (r: u32)
        requires
            self.wf(),
        ensures
            r == self.view().len(),
    {
        self.files.len() as u32
    }

    pub fn get_file(&self, index: u32) -> (r: Option<&InitrdFile>)
        requires
            self.wf(),
        ensures
            (index as int) < self.view().len() ==> (r matches Some(f) && f.view() == self.view()[index as int]),
            (index as int) >= self.view().len() ==> r is None,
    {
        if (index as usize) < self.files.len() {
            Some(&self.files[index as usize])
        } else {
            None
        }
    }

    /// The first file named by the C string `name`.
    pub fn find(&self, name: &[u8]) -> (r: Option<&InitrdFile>)
        requires
            self.wf(),
        ensures
            r matches Some(f) ==> (exists|i: int| 0 <= i < self.view().len() && f.view() == self.view()[i]
                && self.view()[i].name == cstr(name@)
                && forall|j: int| 0 <= j < i ==> self.view()[j].name != cstr(name@)),
            r is None ==> forall|j: int| 0 <= j < self.view().len() ==> self.view()[j].name != cstr(name@),
    {
        let n = strlen(name);
        proof { lemma_cstr(name@); }
        let mut key: Vec<u8> = Vec::new();
        let mut j: usize = 0;
        while j < n
            invariant
                j <= n,
                n == cstr_len(name@),
                n <= name@.len(),
                key@ == name@.take(j as int),
            decreases n - j,
        {
            key.push(name[j]);
            j = j + 1;
            assert(key@ =~= name@.take(j as int));
        }
        assert(key@ =~= cstr(name@));
        let mut i: usize = 0;
        while i < self.files.len()
            invariant
                i <= self.files@.len(),
                key@ == cstr(name@),
                forall|q: int| 0 <= q < i ==> self.view()[q].name != cstr(name@),
            decreases self.files.len() - i,
        {
            if bytes_eq(&self.files[i].name, &key) {
                assert(self.view()[i as int] == self.files@[i as int].view());
                return Some(&self.files[i]);
            }
            assert(self.view()[i as int] == self.files@[i as int].view());
            i = i + 1;
        }
        None
    }
}

} // verus!
