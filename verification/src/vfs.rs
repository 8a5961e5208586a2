//! The virtual file system: a tree of named nodes held in an arena (a
//! node is named by its index), a RAM-backed writable file kind, read-only
//! files taken from the initial ramdisk, the `/dev` device nodes, and a
//! table of 32 open-file descriptors.
//!
//! Reading and writing the console device is keyboard and screen work;
//! those operations are answered with a request for the caller to carry
//! out.

use vstd::prelude::*;
use crate::string::{cstr, cstr_len, cstr_trunc, lemma_cstr, strlen, copy_cstr};
use crate::initrd::{InitrdTable, InitrdView, InitrdFile, initrd_file_ok};

verus! {

pub const VFS_FILE: u32 = 0x01;
pub const VFS_DIRECTORY: u32 = 0x02;
pub const VFS_DEVICE: u32 = 0x04;

pub const VFS_MAX_CHILDREN: usize = 128;
/// Longest node name kept (names live in 64-byte zero-terminated buffers).
pub const VFS_NAME_MAX: usize = 63;
pub const FD_TABLE_SIZE: usize = 32;

/// What a node is, which decides how it is read and written.
#[derive(Clone, Copy, PartialEq, Eq, Structural)]
pub enum NodeKind {
    Dir,
    RamFile,
    InitrdFile,
    DevNull,
    DevZero,
    DevConsole,
}

pub struct VfsNode {
    pub name: Vec<u8>,
    pub flags: u32,
    pub size: u32,
    pub inode: u32,
    pub kind: NodeKind,
    /// File contents (RAM and ramdisk files).
    pub data: Vec<u8>,
    /// Children of a directory, in the order they were added.
    pub children: Vec<usize>,
    pub parent: Option<usize>,
}

pub struct NodeView {
    pub name: Seq<u8>,
    pub flags: u32,
    pub size: u32,
    pub inode: u32,
    pub kind: NodeKind,
    pub data: Seq<u8>,
    pub children: Seq<usize>,
    pub parent: Option<usize>,
}

impl VfsNode {
    pub open spec fn view(&self) -> NodeView {
        NodeView {
            name: self.name@,
            flags: self.flags,
            size: self.size,
            inode: self.inode,
            kind: self.kind,
            data: self.data@,
            children: self.children@,
            parent: self.parent,
        }
    }
}

/// One open-file slot.
#[derive(Clone, Copy)]
pub struct FdEntry {
    pub node: Option<usize>,
    pub offset: u32,
    pub in_use: bool,
}

pub open spec fn free_fd() -> FdEntry {
    FdEntry { node: None, offset: 0, in_use: false }
}

pub struct Vfs {
    pub nodes: Vec<VfsNode>,
    pub fds: Vec<FdEntry>,
    pub root: usize,
}

pub struct VfsView {
    pub nodes: Seq<NodeView>,
    pub fds: Seq<FdEntry>,
    pub root: usize,
}

impl Vfs {
    pub open spec fn view(&self) -> VfsView {
        VfsView {
            nodes: self.nodes@.map_values(|n: VfsNode| n.view()),
            fds: self.fds@,
            root: self.root,
        }
    }
}

/// A node's name: nonempty names of at most 63 bytes, none of them zero.
pub open spec fn name_ok(n: Seq<u8>) -> bool {
    &&& n.len() <= VFS_NAME_MAX
    &&& forall|k: int| 0 <= k < n.len() ==> n[k] != 0
}

/// The stored form of a name: cut to 63 bytes.
pub open spec fn stored_name(key: Seq<u8>) -> Seq<u8> {
    if key.len() <= VFS_NAME_MAX { key } else { key.take(VFS_NAME_MAX as int) }
}

impl VfsView {
    pub open spec fn valid(self, i: int) -> bool {
        0 <= i < self.nodes.len()
    }

    pub open spec fn is_dir(self, i: int) -> bool {
        self.valid(i) && self.nodes[i].kind == NodeKind::Dir
    }

    /// Every index in the tree names a node; directories hold at most 128
    /// children; files hold exactly their size in bytes; the root is a
    /// directory; the descriptor table has its 32 slots.
    pub open spec fn wf(self) -> bool {
        &&& self.is_dir(self.root as int)
        &&& self.fds.len() == FD_TABLE_SIZE
        &&& forall|f: int| 0 <= f < self.fds.len() ==> ((#[trigger] self.fds[f]).node matches Some(n) ==> n < self.nodes.len())
        &&& forall|i: int| 0 <= i < self.nodes.len() ==> node_ok(#[trigger] self.nodes[i], self.nodes.len() as int)
    }
}

pub open spec fn node_ok(n: NodeView, count: int) -> bool {
    &&& name_ok(n.name)
    &&& n.children.len() <= VFS_MAX_CHILDREN
    &&& forall|k: int| 0 <= k < n.children.len() ==> (#[trigger] n.children[k]) < count
    &&& (n.kind == NodeKind::RamFile || n.kind == NodeKind::InitrdFile) ==> n.data.len() == n.size
    &&& n.kind != NodeKind::Dir ==> n.children.len() == 0
    &&& n.parent matches Some(p) ==> p < count
}

/// The first of `kids[k..]` whose node is named `key`.
pub open spec fn first_named(nodes: Seq<NodeView>, kids: Seq<usize>, key: Seq<u8>, k: int) -> Option<usize>
    decreases kids.len() - k,
{
    if k < 0 || k >= kids.len() {
        None
    } else if nodes[kids[k] as int].name == key {
        Some(kids[k])
    } else {
        first_named(nodes, kids, key, k + 1)
    }
}

/// Position in `kids` of the first child named `key` at or after `k`.
pub open spec fn first_named_pos(nodes: Seq<NodeView>, kids: Seq<usize>, key: Seq<u8>, k: int) -> Option<int>
    decreases kids.len() - k,
{
    if k < 0 || k >= kids.len() {
        None
    } else if nodes[kids[k] as int].name == key {
        Some(k)
    } else {
        first_named_pos(nodes, kids, key, k + 1)
    }
}

/// The child of directory `dir` named `key`; none for a node that is not a
/// directory.
pub open spec fn find_child(v: VfsView, dir: int, key: Seq<u8>) -> Option<usize> {
    if v.is_dir(dir) {
        first_named(v.nodes, v.nodes[dir].children, key, 0)
    } else {
        None
    }
}

/// A fresh directory node.
pub open spec fn dir_node(name: Seq<u8>) -> NodeView {
    NodeView {
        name,
        flags: VFS_DIRECTORY,
        size: 0,
        inode: 0,
        kind: NodeKind::Dir,
        data: Seq::empty(),
        children: Seq::empty(),
        parent: None,
    }
}

/// `add_child`: hang `child` under `parent`, which must be a directory with
/// room left.
pub open spec fn add_child_spec(v: VfsView, parent: int, child: int) -> (VfsView, i32) {
    if !v.valid(parent) || !v.valid(child) || !v.is_dir(parent)
        || v.nodes[parent].children.len() >= VFS_MAX_CHILDREN {
        (v, -1i32)
    } else {
        let p = v.nodes[parent];
        let np = NodeView { children: p.children.push(child as usize), ..p };
        let nodes1 = v.nodes.update(parent, np);
        let c = nodes1[child];
        let nc = NodeView { parent: Some(parent as usize), ..c };
        (VfsView { nodes: nodes1.update(child, nc), ..v }, 0i32)
    }
}

/// `mkdir`: the existing directory of that name, or a new one added under
/// `parent`; none when the name is taken by a file, `parent` is not a
/// directory or it is full.
pub open spec fn mkdir_spec(v: VfsView, parent: int, key: Seq<u8>) -> (VfsView, Option<usize>) {
    if !v.is_dir(parent) {
        (v, None)
    } else {
        match find_child(v, parent, key) {
            Some(e) => if v.nodes[e as int].kind == NodeKind::Dir { (v, Some(e)) } else { (v, None) },
            None => if v.nodes[parent].children.len() >= VFS_MAX_CHILDREN {
                (v, None)
            } else {
                let n = v.nodes.len();
                let v1 = VfsView { nodes: v.nodes.push(dir_node(stored_name(key))), ..v };
                (add_child_spec(v1, parent, n as int).0, Some(n as usize))
            },
        }
    }
}

proof fn lemma_first_named(nodes: Seq<NodeView>, kids: Seq<usize>, key: Seq<u8>, k: int)
    requires
        0 <= k,
    ensures
        (first_named(nodes, kids, key, k) matches Some(c) ==> (first_named_pos(nodes, kids, key, k) matches Some(p)
            && k <= p < kids.len() && kids[p] == c && nodes[c as int].name == key)),
        first_named(nodes, kids, key, k) is None <==> first_named_pos(nodes, kids, key, k) is None,
        first_named(nodes, kids, key, k) is None ==> forall|j: int| k <= j < kids.len() ==> nodes[kids[j] as int].name != key,
    decreases kids.len() - k,
{
    if k < kids.len() {
        lemma_first_named(nodes, kids, key, k + 1);
    }
}

impl Vfs {
    pub open spec fn wf(&self) -> bool {
        self.view().wf()
    }

    /// Child `index` of directory `dir`, in the order children were added.
    pub fn readdir(&self, dir: usize, index: u32) -> (r: Option<usize>)
        requires
            self.wf(),
        ensures
            r == (if self.view().is_dir(dir as int) && (index as int) < self.view().nodes[dir as int].children.len() {
                Some(self.view().nodes[dir as int].children[index as int])
            } else {
                None
            }),
    {
        if dir >= self.nodes.len() {
            return None;
        }
        if self.nodes[dir].kind != NodeKind::Dir {
            return None;
        }
        let i = index as usize;
        if i >= self.nodes[dir].children.len() {
            return None;
        }
        Some(self.nodes[dir].children[i])
    }

    /// The child of `dir` named by the C string `name`.
    pub fn finddir(&self, dir: usize, name: &[u8]) -> (r: Option<usize>)
        requires
            self.wf(),
        ensures
            r == find_child(self.view(), dir as int, cstr(name@)),
            r matches Some(c) ==> (c as int) < self.view().nodes.len(),
    {
        let n = strlen(name);
        proof { lemma_cstr(name@); }
        let ghost key = cstr(name@);
        if dir >= self.nodes.len() {
            return None;
        }
        if self.nodes[dir].kind != NodeKind::Dir {
            return None;
        }
        let ghost v = self.view();
        let kids = &self.nodes[dir].children;
        assert(kids@ == v.nodes[dir as int].children);
        let mut k: usize = 0;
        while k < kids.len()
            invariant
                v == self.view(),
                v.wf(),
                v.is_dir(dir as int),
                kids@ == v.nodes[dir as int].children,
                k <= kids@.len(),
                n == key.len(),
                key == cstr(name@),
                n <= name@.len(),
                forall|j: int| 0 <= j < n ==> name@[j] == key[j],
                first_named(v.nodes, kids@, key, k as int) == first_named(v.nodes, kids@, key, 0),
            decreases kids.len() - k,
        {
            let c = kids[k];
            assert(node_ok(v.nodes[dir as int], v.nodes.len() as int));
            assert(kids@[k as int] == c);
            assert(c < self.nodes.len());
            let nm = &self.nodes[c].name;
            assert(nm@ == v.nodes[c as int].name);
            let mut same = nm.len() == n;
            if same {
                let mut j: usize = 0;
                while j < n
                    invariant
                        j <= n,
                        n == nm@.len(),
                        n <= name@.len(),
                        same ==> forall|q: int| 0 <= q < j ==> nm@[q] == name@[q],
                        !same ==> exists|q: int| 0 <= q < j && nm@[q] != name@[q],
                    decreases n - j,
                {
                    if nm[j] != name[j] {
                        same = false;
                    }
                    j = j + 1;
                }
                if same {
                    assert(nm@ =~= key);
                } else {
                    assert(nm@ != key);
                }
            }
            if same {
                return Some(c);
            }
            k = k + 1;
        }
        None
    }
}

/// A blank node, used as a placeholder while a node is being changed.
fn blank_node() -> (n: VfsNode)
    ensures
        n.view() == dir_node(Seq::empty()),
{
    VfsNode {
        name: Vec::new(),
        flags: VFS_DIRECTORY,
        size: 0,
        inode: 0,
        kind: NodeKind::Dir,
        data: Vec::new(),
        children: Vec::new(),
        parent: None,
    }
}

impl Vfs {
    /// Add a node to the arena; it is not attached anywhere yet.
    fn push_node(&mut self, n: VfsNode) -> (i: usize)
        requires
            old(self).wf(),
            node_ok(n.view(), old(self).view().nodes.len() as int),
            old(self).nodes@.len() < usize::MAX,
        ensures
            final(self).wf(),
            i == old(self).view().nodes.len(),
            final(self).view() == (VfsView { nodes: old(self).view().nodes.push(n.view()), ..old(self).view() }),
    {
        let ghost v = self.view();
        let i = self.nodes.len();
        self.nodes.push(n);
        proof {
            assert(self.view().nodes =~= v.nodes.push(n.view()));
            assert forall|j: int| 0 <= j < self.view().nodes.len() implies node_ok(#[trigger] self.view().nodes[j], self.view().nodes.len() as int) by {
                if j < v.nodes.len() {
                    assert(node_ok(v.nodes[j], v.nodes.len() as int));
                }
            }
        }
        i
    }

    /// Hang `child` under `parent`.  Fails (-1) when either index names no
    /// node, `parent` is not a directory, or it already has 128 children.
    pub fn add_child(&mut self, parent: usize, child: usize) -> (r: i32)
        requires
            old(self).wf(),
        ensures
            final(self).wf(),
            (final(self).view(), r) == add_child_spec(old(self).view(), parent as int, child as int),
    {
        let ghost v = self.view();
        if parent >= self.nodes.len() || child >= self.nodes.len() {
            return -1;
        }
        if self.nodes[parent].kind != NodeKind::Dir {
            return -1;
        }
        if self.nodes[parent].children.len() >= VFS_MAX_CHILDREN {
            return -1;
        }
        let mut p = blank_node();
        std::mem::swap(&mut p, &mut self.nodes[parent]);
        p.children.push(child);
        self.nodes.set(parent, p);
        let ghost v1 = self.view();
        proof {
            let pv = v.nodes[parent as int];
            assert(v1.nodes =~= v.nodes.update(parent as int, NodeView { children: pv.children.push(child), ..pv }));
        }
        let mut c = blank_node();
        std::mem::swap(&mut c, &mut self.nodes[child]);
        c.parent = Some(parent);
        self.nodes.set(child, c);
        proof {
            let cv = v1.nodes[child as int];
            assert(self.view().nodes =~= v1.nodes.update(child as int, NodeView { parent: Some(parent), ..cv }));
            let w = self.view();
            assert forall|j: int| 0 <= j < w.nodes.len() implies node_ok(#[trigger] w.nodes[j], w.nodes.len() as int) by {
                assert(node_ok(v.nodes[j], v.nodes.len() as int));
                if j == parent as int {
                    assert(node_ok(v1.nodes[j], v.nodes.len() as int));
                }
            }
        }
        0
    }
}

/// The name kept for a node created from the C string `s`.
fn node_name(s: &[u8]) -> (r: Vec<u8>)
    ensures
        r@ == stored_name(cstr(s@)),
        name_ok(r@),
{
    let r = copy_cstr(s, VFS_NAME_MAX);
    proof {
        lemma_cstr(s@);
        assert(r@ =~= stored_name(cstr(s@)));
    }
    r
}

impl Vfs {
    /// A new, unattached directory node named by the C string `name`.
    pub fn make_dir(&mut self, name: &[u8]) -> (d: usize)
        requires
            old(self).wf(),
            old(self).nodes@.len() < usize::MAX,
        ensures
            final(self).wf(),
            d == old(self).view().nodes.len(),
            final(self).view() == (VfsView { nodes: old(self).view().nodes.push(dir_node(stored_name(cstr(name@)))), ..old(self).view() }),
    {
        let n = VfsNode {
            name: node_name(name),
            flags: VFS_DIRECTORY,
            size: 0,
            inode: 0,
            kind: NodeKind::Dir,
            data: Vec::new(),
            children: Vec::new(),
            parent: None,
        };
        self.push_node(n)
    }

    /// Create directory `name` under `parent`.  An existing directory of
    /// that name is returned as it is; the name being taken by a file, a
    /// `parent` that is not a directory or is full give none.
    pub fn mkdir(&mut self, parent: usize, name: &[u8]) -> (r: Option<usize>)
        requires
            old(self).wf(),
            old(self).nodes@.len() < usize::MAX,
        ensures
            final(self).wf(),
            (final(self).view(), r) == mkdir_spec(old(self).view(), parent as int, cstr(name@)),
            r matches Some(d) ==> final(self).view().is_dir(d as int),
            final(self).view().nodes.len() <= old(self).view().nodes.len() + 1,
    {
        if parent >= self.nodes.len() {
            return None;
        }
        if self.nodes[parent].kind != NodeKind::Dir {
            return None;
        }
        match self.finddir(parent, name) {
            Some(e) => {
                if self.nodes[e].kind == NodeKind::Dir {
                    Some(e)
                } else {
                    None
                }
            },
            None => {
                if self.nodes[parent].children.len() >= VFS_MAX_CHILDREN {
                    return None;
                }
                let d = self.make_dir(name);
                let _ = self.add_child(parent, d);
                Some(d)
            },
        }
    }
}

// ---- Paths ----------------------------------------------------------------

/// Index of the first byte at or after `i` that is not a slash.
pub open spec fn skip_slashes(s: Seq<u8>, i: int) -> int
    decreases s.len() - i,
{
    if 0 <= i < s.len() && s[i] == 0x2f {
        skip_slashes(s, i + 1)
    } else {
        i
    }
}

/// Index of the first slash (or the end) at or after `i`.
pub open spec fn comp_end(s: Seq<u8>, i: int) -> int
    decreases s.len() - i,
{
    if 0 <= i < s.len() && s[i] != 0x2f {
        comp_end(s, i + 1)
    } else {
        i
    }
}

/// The path component starting at `i`, cut to 63 bytes.
pub open spec fn component(s: Seq<u8>, i: int) -> Seq<u8> {
    let e = comp_end(s, i);
    s.subrange(i, if e - i > VFS_NAME_MAX { i + VFS_NAME_MAX } else { e })
}

/// Where the component after the one at `i` starts.
pub open spec fn next_comp(s: Seq<u8>, i: int) -> int {
    skip_slashes(s, comp_end(s, i))
}

/// Follow the components of `s` from index `i` down from node `cur`.
pub open spec fn walk(v: VfsView, cur: usize, s: Seq<u8>, i: int) -> Option<usize>
    decreases s.len() - i,
{
    if i < 0 || i >= s.len() {
        Some(cur)
    } else {
        let n = next_comp(s, i);
        match find_child(v, cur as int, component(s, i)) {
            None => None,
            Some(c) => if n <= i || n > s.len() { Some(c) } else { walk(v, c, s, n) },
        }
    }
}

/// The node a `/`-separated path names, walked from the root; leading,
/// doubled and trailing slashes are ignored and each component is cut to
/// 63 bytes.
pub open spec fn resolve(v: VfsView, s: Seq<u8>) -> Option<usize> {
    walk(v, v.root, s, skip_slashes(s, 0))
}

/// `mkdir -p` from node `cur` over the components of `s` from index `i`.
pub open spec fn mkdir_walk(v: VfsView, cur: usize, s: Seq<u8>, i: int) -> (VfsView, Option<usize>)
    decreases s.len() - i,
{
    if i < 0 || i >= s.len() {
        (v, Some(cur))
    } else {
        let n = next_comp(s, i);
        let comp = component(s, i);
        let step = match find_child(v, cur as int, comp) {
            Some(c) => (v, Some(c)),
            None => mkdir_spec(v, cur as int, comp),
        };
        match step.1 {
            None => (step.0, None),
            Some(c) => if n <= i || n > s.len() { (step.0, Some(c)) } else { mkdir_walk(step.0, c, s, n) },
        }
    }
}

/// Walk a path from the root, creating each missing directory.
pub open spec fn mkdir_p_spec(v: VfsView, s: Seq<u8>) -> (VfsView, Option<usize>) {
    mkdir_walk(v, v.root, s, skip_slashes(s, 0))
}

proof fn lemma_skip(s: Seq<u8>, i: int)
    requires
        0 <= i,
    ensures
        i <= skip_slashes(s, i),
        i <= s.len() ==> skip_slashes(s, i) <= s.len(),
        skip_slashes(s, i) < s.len() ==> s[skip_slashes(s, i)] != 0x2f,
        i < s.len() && s[i] == 0x2f ==> i < skip_slashes(s, i),
    decreases s.len() - i,
{
    if 0 <= i < s.len() && s[i] == 0x2f {
        lemma_skip(s, i + 1);
    }
}

proof fn lemma_comp_end(s: Seq<u8>, i: int)
    requires
        0 <= i,
    ensures
        i <= comp_end(s, i),
        i <= s.len() ==> comp_end(s, i) <= s.len(),
        i < s.len() && s[i] != 0x2f ==> i < comp_end(s, i),
        forall|j: int| i <= j < comp_end(s, i) ==> s[j] != 0x2f,
    decreases s.len() - i,
{
    if 0 <= i < s.len() && s[i] != 0x2f {
        lemma_comp_end(s, i + 1);
    }
}

pub proof fn lemma_path_steps(s: Seq<u8>, i: int)
    requires
        0 <= i,
    ensures
        i <= skip_slashes(s, i),
        i <= comp_end(s, i),
        i < s.len() ==> i < next_comp(s, i),
        skip_slashes(s, i) < s.len() ==> s[skip_slashes(s, i)] != 0x2f,
        i <= s.len() ==> comp_end(s, i) <= s.len(),
        i <= s.len() ==> skip_slashes(s, i) <= s.len(),
        i <= s.len() ==> next_comp(s, i) <= s.len(),
        forall|j: int| i <= j < comp_end(s, i) ==> s[j] != 0x2f,
{
    lemma_skip(s, i);
    lemma_comp_end(s, i);
    lemma_skip(s, comp_end(s, i));
}

/// A byte string without zero bytes is its own C string.
pub proof fn lemma_cstr_plain(s: Seq<u8>)
    requires
        forall|k: int| 0 <= k < s.len() ==> s[k] != 0,
    ensures
        cstr(s) == s,
{
    lemma_cstr(s);
    if cstr_len(s) < s.len() {
        assert(s[cstr_len(s)] == 0);
    }
    assert(cstr(s) =~= s);
}

/// Read the component of `path[..n]` that starts at `p`; return it and
/// where the next one starts.
fn next_component(path: &[u8], n: usize, p: usize) -> (r: (Vec<u8>, usize))
    requires
        n <= path@.len(),
        p < n,
        forall|k: int| 0 <= k < n ==> path@[k] != 0,
    ensures
        r.0@ == component(path@.take(n as int), p as int),
        r.1 == next_comp(path@.take(n as int), p as int),
        p < r.1 <= n,
        forall|k: int| 0 <= k < r.0@.len() ==> r.0@[k] != 0,
{
    let ghost s = path@.take(n as int);
    let mut q = p;
    let mut comp: Vec<u8> = Vec::new();
    while q < n && path[q] != 0x2f && q - p < VFS_NAME_MAX
        invariant
            p <= q <= n,
            q - p <= VFS_NAME_MAX,
            n <= path@.len(),
            s == path@.take(n as int),
            comp@ == s.subrange(p as int, q as int),
            comp_end(s, q as int) == comp_end(s, p as int),
        decreases n - q,
    {
        comp.push(path[q]);
        q = q + 1;
        assert(comp@ =~= s.subrange(p as int, q as int));
    }
    let ghost q1 = q;
    while q < n && path[q] != 0x2f
        invariant
            p <= q1 <= q <= n,
            n <= path@.len(),
            s == path@.take(n as int),
            comp_end(s, q as int) == comp_end(s, p as int),
        decreases n - q,
    {
        q = q + 1;
    }
    proof {
        lemma_path_steps(s, p as int);
        lemma_path_steps(s, q1 as int);
        assert(comp_end(s, p as int) == q);
        assert(comp@ =~= component(s, p as int));
    }
    let ghost e = q;
    while q < n && path[q] == 0x2f
        invariant
            e <= q <= n,
            n <= path@.len(),
            s == path@.take(n as int),
            skip_slashes(s, q as int) == skip_slashes(s, e as int),
        decreases n - q,
    {
        q = q + 1;
    }
    proof {
        lemma_path_steps(s, p as int);
        lemma_path_steps(s, e as int);
    }
    (comp, q)
}

impl Vfs {
    /// Resolve the path `path[..n]`, which holds no zero byte.
    fn resolve_prefix(&self, path: &[u8], n: usize) -> (r: Option<usize>)
        requires
            self.wf(),
            n <= path@.len(),
            forall|k: int| 0 <= k < n ==> path@[k] != 0,
        ensures
            r == resolve(self.view(), path@.take(n as int)),
            r matches Some(c) ==> (c as int) < self.view().nodes.len(),
    {
        let ghost s = path@.take(n as int);
        let ghost v = self.view();
        let mut p: usize = 0;
        while p < n && path[p] == 0x2f
            invariant
                p <= n,
                n <= path@.len(),
                s == path@.take(n as int),
                skip_slashes(s, p as int) == skip_slashes(s, 0),
            decreases n - p,
        {
            p = p + 1;
        }
        let mut cur: Option<usize> = Some(self.root);
        while p < n && cur.is_some()
            invariant
                p <= n,
                n <= path@.len(),
                forall|k: int| 0 <= k < n ==> path@[k] != 0,
                s == path@.take(n as int),
                v == self.view(),
                v.wf(),
                cur matches Some(c) ==> c < v.nodes.len() && walk(v, c, s, p as int) == resolve(v, s),
                cur is None ==> resolve(v, s) is None,
            decreases n - p,
        {
            let c = cur.unwrap();
            let (comp, q) = next_component(path, n, p);
            proof {
                lemma_cstr_plain(comp@);
                lemma_path_steps(s, p as int);
            }
            cur = self.finddir(c, &comp);
            p = q;
        }
        cur
    }

    /// The node named by the C string `path`, walked from the root.
    pub fn resolve_path(&self, path: &[u8]) -> (r: Option<usize>)
        requires
            self.wf(),
        ensures
            r == resolve(self.view(), cstr(path@)),
            r matches Some(c) ==> (c as int) < self.view().nodes.len(),
    {
        let n = strlen(path);
        proof {
            lemma_cstr(path@);
            assert(cstr(path@) =~= path@.take(n as int));
        }
        self.resolve_prefix(path, n)
    }
}

impl Vfs {
    /// Walk the C string `path` from the root like `resolve_path`, creating
    /// each component that is missing as a directory.  Returns the last
    /// node reached, or none where a step failed.
    pub fn mkdir_p(&mut self, path: &[u8]) -> (r: Option<usize>)
        requires
            old(self).wf(),
            old(self).nodes@.len() + path@.len() < usize::MAX,
        ensures
            final(self).wf(),
            (final(self).view(), r) == mkdir_p_spec(old(self).view(), cstr(path@)),
    {
        let ghost v0 = self.view();
        let n = strlen(path);
        proof {
            lemma_cstr(path@);
            assert(cstr(path@) =~= path@.take(n as int));
        }
        let ghost s = path@.take(n as int);
        let mut p: usize = 0;
        while p < n && path[p] == 0x2f
            invariant
                p <= n,
                n <= path@.len(),
                s == path@.take(n as int),
                skip_slashes(s, p as int) == skip_slashes(s, 0),
            decreases n - p,
        {
            p = p + 1;
        }
        let mut cur: Option<usize> = Some(self.root);
        while p < n && cur.is_some()
            invariant
                p <= n,
                n <= path@.len(),
                v0.nodes.len() + path@.len() < usize::MAX,
                forall|k: int| 0 <= k < n ==> path@[k] != 0,
                s == path@.take(n as int),
                self.wf(),
                self.view().nodes.len() <= v0.nodes.len() + p,
                cur matches Some(c) ==> c < self.view().nodes.len()
                    && mkdir_walk(self.view(), c, s, p as int) == mkdir_p_spec(v0, s),
                cur is None ==> (self.view(), None::<usize>) == mkdir_p_spec(v0, s),
            decreases n - p,
        {
            let c = cur.unwrap();
            let (comp, q) = next_component(path, n, p);
            proof {
                lemma_cstr_plain(comp@);
                lemma_path_steps(s, p as int);
            }
            let child = self.finddir(c, &comp);
            if child.is_none() {
                cur = self.mkdir(c, &comp);
            } else {
                cur = child;
            }
            p = q;
        }
        cur
    }
}

// ---- Removing nodes -------------------------------------------------------

/// `unlink`: take the first child of `parent` named `key` out of its
/// children.
pub open spec fn unlink_spec(v: VfsView, parent: int, key: Seq<u8>) -> (VfsView, i32) {
    if !v.is_dir(parent) {
        (v, -1i32)
    } else {
        match first_named_pos(v.nodes, v.nodes[parent].children, key, 0) {
            None => (v, -1i32),
            Some(k) => {
                let p = v.nodes[parent];
                (VfsView { nodes: v.nodes.update(parent, NodeView { children: p.children.remove(k), ..p }), ..v }, 0i32)
            },
        }
    }
}

/// Index of the last slash among the first `n` bytes, or -1.
pub open spec fn last_slash(s: Seq<u8>, n: int) -> int
    decreases n,
{
    if n <= 0 {
        -1
    } else if s[n - 1] == 0x2f {
        n - 1
    } else {
        last_slash(s, n - 1)
    }
}

/// `unlink_path`: split the path at its last slash into the parent
/// directory's path and the name to remove.  A parent path of 255 bytes
/// or more, a parent that does not resolve, or an empty name fail.
pub open spec fn unlink_path_spec(v: VfsView, s: Seq<u8>) -> (VfsView, i32) {
    let ls = last_slash(s, s.len() as int);
    let name = s.subrange(ls + 1, s.len() as int);
    if s.len() == 0 {
        (v, -1i32)
    } else if ls >= 255 {
        (v, -1i32)
    } else {
        let parent = if ls <= 0 { Some(v.root) } else { resolve(v, s.take(ls)) };
        match parent {
            None => (v, -1i32),
            Some(p) => if name.len() == 0 { (v, -1i32) } else { unlink_spec(v, p as int, name) },
        }
    }
}

proof fn lemma_last_slash(s: Seq<u8>, n: int)
    requires
        0 <= n <= s.len(),
    ensures
        -1 <= last_slash(s, n) < n,
        last_slash(s, n) >= 0 ==> s[last_slash(s, n)] == 0x2f,
    decreases n,
{
    if n > 0 {
        lemma_last_slash(s, n - 1);
    }
}

impl Vfs {
    /// Position among the children of `dir` of the first one named by the
    /// C string `name`.
    fn find_pos(&self, dir: usize, name: &[u8]) -> (r: Option<usize>)
        requires
            self.wf(),
            self.view().is_dir(dir as int),
        ensures
            r == (match first_named_pos(self.view().nodes, self.view().nodes[dir as int].children, cstr(name@), 0) {
                Some(k) => Some(k as usize),
                None => None,
            }),
    {
        let n = strlen(name);
        proof { lemma_cstr(name@); }
        let ghost key = cstr(name@);
        let ghost v = self.view();
        let kids = &self.nodes[dir].children;
        assert(kids@ == v.nodes[dir as int].children);
        let mut k: usize = 0;
        while k < kids.len()
            invariant
                v == self.view(),
                v.wf(),
                v.is_dir(dir as int),
                kids@ == v.nodes[dir as int].children,
                k <= kids@.len(),
                n == key.len(),
                key == cstr(name@),
                n <= name@.len(),
                forall|j: int| 0 <= j < n ==> name@[j] == key[j],
                first_named_pos(v.nodes, kids@, key, k as int) == first_named_pos(v.nodes, kids@, key, 0),
            decreases kids.len() - k,
        {
            let c = kids[k];
            assert(node_ok(v.nodes[dir as int], v.nodes.len() as int));
            assert(kids@[k as int] == c);
            let nm = &self.nodes[c].name;
            assert(nm@ == v.nodes[c as int].name);
            let mut same = nm.len() == n;
            if same {
                let mut j: usize = 0;
                while j < n
                    invariant
                        j <= n,
                        n == nm@.len(),
                        n <= name@.len(),
                        same ==> forall|q: int| 0 <= q < j ==> nm@[q] == name@[q],
                        !same ==> exists|q: int| 0 <= q < j && nm@[q] != name@[q],
                    decreases n - j,
                {
                    if nm[j] != name[j] {
                        same = false;
                    }
                    j = j + 1;
                }
                if same {
                    assert(nm@ =~= key);
                } else {
                    assert(nm@ != key);
                }
            }
            if same {
                return Some(k);
            }
            k = k + 1;
        }
        None
    }

    /// Remove the child of `parent` named by the C string `name` from the
    /// directory.  Fails (-1) when `parent` is not a directory or has no
    /// such child.
    pub fn unlink(&mut self, parent: usize, name: &[u8]) -> (r: i32)
        requires
            old(self).wf(),
        ensures
            final(self).wf(),
            (final(self).view(), r) == unlink_spec(old(self).view(), parent as int, cstr(name@)),
    {
        let ghost v = self.view();
        if parent >= self.nodes.len() {
            return -1;
        }
        if self.nodes[parent].kind != NodeKind::Dir {
            return -1;
        }
        match self.find_pos(parent, name) {
            None => -1,
            Some(k) => {
                proof { lemma_first_named(v.nodes, v.nodes[parent as int].children, cstr(name@), 0); }
                let mut p = blank_node();
                std::mem::swap(&mut p, &mut self.nodes[parent]);
                let _ = p.children.remove(k);
                self.nodes.set(parent, p);
                proof {
                    let pv = v.nodes[parent as int];
                    let w = self.view();
                    assert(w.nodes =~= v.nodes.update(parent as int, NodeView { children: pv.children.remove(k as int), ..pv }));
                    assert forall|j: int| 0 <= j < w.nodes.len() implies node_ok(#[trigger] w.nodes[j], w.nodes.len() as int) by {
                        assert(node_ok(v.nodes[j], v.nodes.len() as int));
                        if j == parent as int {
                            assert forall|q: int| 0 <= q < w.nodes[j].children.len() implies (#[trigger] w.nodes[j].children[q]) < w.nodes.len() by {
                                if q < k {
                                    assert(w.nodes[j].children[q] == pv.children[q]);
                                } else {
                                    assert(w.nodes[j].children[q] == pv.children[q + 1]);
                                }
                            }
                        }
                    }
                }
                0
            },
        }
    }

    /// Remove the node named by the C string `path`.
    pub fn unlink_path(&mut self, path: &[u8]) -> (r: i32)
        requires
            old(self).wf(),
        ensures
            final(self).wf(),
            (final(self).view(), r) == unlink_path_spec(old(self).view(), cstr(path@)),
    {
        let len = strlen(path);
        proof {
            lemma_cstr(path@);
            assert(cstr(path@) =~= path@.take(len as int));
        }
        let ghost s = path@.take(len as int);
        if len == 0 {
            return -1;
        }
        let mut i: usize = 0;
        let mut ls: Option<usize> = None;
        while i < len
            invariant
                i <= len,
                len <= path@.len(),
                s == path@.take(len as int),
                last_slash(s, i as int) == (match ls { Some(l) => l as int, None => -1 }),
                ls matches Some(l) ==> l < i,
            decreases len - i,
        {
            if path[i] == 0x2f {
                ls = Some(i);
            }
            i = i + 1;
        }
        let start: usize = match ls {
            Some(l) => l + 1,
            None => 0,
        };
        let parent: Option<usize> = match ls {
            None => Some(self.root),
            Some(l) => {
                if l == 0 {
                    Some(self.root)
                } else if l >= 255 {
                    return -1;
                } else {
                    proof { assert(path@.take(l as int) =~= s.take(l as int)); }
                    self.resolve_prefix(path, l)
                }
            },
        };
        let mut name: Vec<u8> = Vec::new();
        let mut j = start;
        while j < len
            invariant
                start <= j <= len,
                len <= path@.len(),
                s == path@.take(len as int),
                name@ == s.subrange(start as int, j as int),
            decreases len - j,
        {
            name.push(path[j]);
            j = j + 1;
            assert(name@ =~= s.subrange(start as int, j as int));
        }
        proof {
            lemma_cstr_plain(name@);
        }
        match parent {
            None => -1,
            Some(p) => {
                if name.len() == 0 {
                    -1
                } else {
                    self.unlink(p, &name)
                }
            },
        }
    }
}

// ---- Reading and writing nodes ---------------------------------------------

/// The largest size a RAM file can grow to: its buffer doubles from 256
/// bytes, and a `u32` capacity cannot double past 2^31.
pub const RAM_FILE_MAX: u32 = 0x8000_0000;

/// What reading a node gives.
pub enum ReadResult {
    Data(Vec<u8>),
    /// A console read: the caller reads a line from the keyboard.
    Console,
    Fail,
}

/// What writing a node gives.
pub enum WriteResult {
    Done(i32),
    /// A console write: the caller puts the bytes on the screen.
    Console,
}

/// At most `size` bytes of `data` from `offset` on.
pub open spec fn file_slice(data: Seq<u8>, offset: int, size: int) -> Seq<u8> {
    if offset >= data.len() {
        Seq::empty()
    } else if size < data.len() - offset {
        data.subrange(offset, offset + size)
    } else {
        data.subrange(offset, data.len() as int)
    }
}

pub open spec fn zeros(n: nat) -> Seq<u8> {
    Seq::new(n, |i: int| 0u8)
}

pub open spec fn is_console(v: VfsView, node: int) -> bool {
    v.valid(node) && v.nodes[node].kind == NodeKind::DevConsole
}

/// The bytes a read of `size` bytes at `offset` gives, for nodes other
/// than the console; none where the node cannot be read.
pub open spec fn read_spec(v: VfsView, node: int, offset: u32, size: u32) -> Option<Seq<u8>> {
    if !v.valid(node) {
        None
    } else {
        match v.nodes[node].kind {
            NodeKind::Dir => None,
            NodeKind::RamFile => Some(file_slice(v.nodes[node].data, offset as int, size as int)),
            NodeKind::InitrdFile => Some(file_slice(v.nodes[node].data, offset as int, size as int)),
            NodeKind::DevNull => Some(Seq::empty()),
            NodeKind::DevZero => Some(zeros(size as nat)),
            NodeKind::DevConsole => None,
        }
    }
}

/// `old` after writing `d` at `offset`: grown with zero bytes where the
/// write ends past it.
pub open spec fn ram_written(old: Seq<u8>, offset: int, d: Seq<u8>) -> Seq<u8> {
    let end = offset + d.len();
    let n = if end > old.len() { end } else { old.len() as int };
    Seq::new(n as nat, |i: int| if offset <= i < end { d[i - offset] } else if i < old.len() { old[i] } else { 0u8 })
}

/// A RAM-file write whose end lies past what a RAM file can hold (and
/// still within `u32`): growing the buffer for it cannot end.
pub open spec fn ram_write_too_big(v: VfsView, node: int, offset: int, len: int) -> bool {
    &&& v.valid(node)
    &&& v.nodes[node].kind == NodeKind::RamFile
    &&& RAM_FILE_MAX < offset + len <= u32::MAX
}

/// Writing `d` at `offset`, for nodes other than the console.
pub open spec fn write_spec(v: VfsView, node: int, offset: u32, d: Seq<u8>) -> (VfsView, i32) {
    if !v.valid(node) {
        (v, -1i32)
    } else {
        let nv = v.nodes[node];
        match nv.kind {
            NodeKind::Dir => (v, -1i32),
            NodeKind::InitrdFile => (v, -1i32),
            NodeKind::RamFile => if d.len() > u32::MAX - offset {
                (v, -1i32)
            } else {
                let nd = ram_written(nv.data, offset as int, d);
                (VfsView { nodes: v.nodes.update(node, NodeView { data: nd, size: nd.len() as u32, ..nv }), ..v }, d.len() as i32)
            },
            _ => (v, d.len() as i32),
        }
    }
}

/// Reading what a write put there gives it back.
pub proof fn lemma_ram_write_then_read(old: Seq<u8>, offset: u32, d: Seq<u8>)
    requires
        offset as int + d.len() <= u32::MAX,
    ensures
        file_slice(ram_written(old, offset as int, d), offset as int, d.len() as int) == d,
        ram_written(old, offset as int, d).len() >= offset + d.len(),
{
    let nd = ram_written(old, offset as int, d);
    if d.len() > 0 {
        assert(file_slice(nd, offset as int, d.len() as int) =~= d);
    } else {
        assert(file_slice(nd, offset as int, d.len() as int) =~= d);
    }
}

impl Vfs {
    /// Read up to `size` bytes of `node` from `offset`.
    pub fn read(&self, node: usize, offset: u32, size: u32) -> (r: ReadResult)
        requires
            self.wf(),
        ensures
            is_console(self.view(), node as int) ==> r is Console,
            !is_console(self.view(), node as int) ==> match r {
                ReadResult::Data(b) => read_spec(self.view(), node as int, offset, size) == Some(b@),
                ReadResult::Fail => read_spec(self.view(), node as int, offset, size) is None,
                ReadResult::Console => false,
            },
    {
        if node >= self.nodes.len() {
            return ReadResult::Fail;
        }
        let ghost v = self.view();
        let n = &self.nodes[node];
        assert(node_ok(v.nodes[node as int], v.nodes.len() as int));
        match n.kind {
            NodeKind::Dir => ReadResult::Fail,
            NodeKind::DevConsole => ReadResult::Console,
            NodeKind::DevNull => ReadResult::Data(Vec::new()),
            NodeKind::DevZero => {
                let mut b: Vec<u8> = Vec::new();
                let mut i: u32 = 0;
                while i < size
                    invariant
                        i <= size,
                        b@ == zeros(i as nat),
                    decreases size - i,
                {
                    b.push(0);
                    i = i + 1;
                    assert(b@ =~= zeros(i as nat));
                }
                ReadResult::Data(b)
            },
            _ => {
                let fsize = n.size;
                if offset >= fsize {
                    assert(file_slice(n.data@, offset as int, size as int) =~= Seq::<u8>::empty());
                    return ReadResult::Data(Vec::new());
                }
                let avail = fsize - offset;
                let sz = if size < avail { size } else { avail };
                let mut b: Vec<u8> = Vec::new();
                let mut i: u32 = 0;
                while i < sz
                    invariant
                        i <= sz,
                        offset as int + sz <= n.data@.len(),
                        offset as int + sz <= fsize,
                        b@ == n.data@.subrange(offset as int, offset + i),
                    decreases sz - i,
                {
                    b.push(n.data[(offset + i) as usize]);
                    i = i + 1;
                    assert(b@ =~= n.data@.subrange(offset as int, offset + i));
                }
                ReadResult::Data(b)
            },
        }
    }

    /// Write `d` at `offset` into `node`.  A RAM file grows (zero-filled)
    /// to hold it; a ramdisk file or a directory cannot be written; the
    /// null and zero devices take any write.
    pub fn write(&mut self, node: usize, offset: u32, d: &[u8]) -> (r: WriteResult)
        requires
            old(self).wf(),
            d@.len() <= u32::MAX,
            !ram_write_too_big(old(self).view(), node as int, offset as int, d@.len() as int),
        ensures
            final(self).wf(),
            is_console(old(self).view(), node as int) ==> r is Console && final(self).view() == old(self).view(),
            !is_console(old(self).view(), node as int) ==> (r matches WriteResult::Done(c)
                && (final(self).view(), c) == write_spec(old(self).view(), node as int, offset, d@)),
    {
        let ghost v = self.view();
        if node >= self.nodes.len() {
            return WriteResult::Done(-1);
        }
        let kind = self.nodes[node].kind;
        let len = d.len() as u32;
        match kind {
            NodeKind::Dir => WriteResult::Done(-1),
            NodeKind::InitrdFile => WriteResult::Done(-1),
            NodeKind::DevConsole => WriteResult::Console,
            NodeKind::DevNull => WriteResult::Done(len as i32),
            NodeKind::DevZero => WriteResult::Done(len as i32),
            NodeKind::RamFile => {
                if len > u32::MAX - offset {
                    return WriteResult::Done(-1);
                }
                let end = offset + len;
                let mut f = blank_node();
                std::mem::swap(&mut f, &mut self.nodes[node]);
                assert(node_ok(v.nodes[node as int], v.nodes.len() as int));
                let ghost od = f.data@;
                let mut data = f.data;
                while data.len() < end as usize
                    invariant
                        od.len() <= data@.len(),
                        data@.len() <= od.len() || data@.len() <= end,
                        forall|i: int| 0 <= i < data@.len() ==> data@[i] == (if i < od.len() { od[i] } else { 0u8 }),
                    decreases end - data@.len(),
                {
                    data.push(0);
                }
                let mut j: usize = 0;
                while j < d.len()
                    invariant
                        j <= d@.len(),
                        end == offset + d@.len(),
                        data@.len() == (if end > od.len() { end as int } else { od.len() as int }),
                        forall|i: int| 0 <= i < data@.len() ==> data@[i] == (
                            if offset <= i < offset + j { d@[i - offset] } else if i < od.len() { od[i] } else { 0u8 }),
                    decreases d@.len() - j,
                {
                    data.set(offset as usize + j, d[j]);
                    j = j + 1;
                }
                proof {
                    assert(data@ =~= ram_written(od, offset as int, d@));
                }
                let nsize = data.len() as u32;
                let nf = VfsNode {
                    name: f.name,
                    flags: f.flags,
                    size: nsize,
                    inode: f.inode,
                    kind: f.kind,
                    data,
                    children: f.children,
                    parent: f.parent,
                };
                self.nodes.set(node, nf);
                proof {
                    let w = self.view();
                    assert(w.nodes =~= write_spec(v, node as int, offset, d@).0.nodes);
                    assert forall|q: int| 0 <= q < w.nodes.len() implies node_ok(#[trigger] w.nodes[q], w.nodes.len() as int) by {
                        assert(node_ok(v.nodes[q], v.nodes.len() as int));
                    }
                }
                WriteResult::Done(len as i32)
            },
        }
    }
}

// ---- File descriptors --------------------------------------------------------

/// What a descriptor read gives.
pub enum FdRead {
    /// The result code (the byte count, or -1) and the bytes read.
    Done(i32, Vec<u8>),
    /// A console read: the caller reads a line from the keyboard and then
    /// moves the offset with `fd_advance`.
    Console,
}

pub open spec fn fd_ok(v: VfsView, fd: i32) -> bool {
    0 <= fd < FD_TABLE_SIZE && v.fds[fd as int].in_use
}

/// The first slot at or after `i` that is not in use.
pub open spec fn first_free_fd(fds: Seq<FdEntry>, i: int) -> Option<int>
    decreases fds.len() - i,
{
    if i < 0 || i >= fds.len() {
        None
    } else if !fds[i].in_use {
        Some(i)
    } else {
        first_free_fd(fds, i + 1)
    }
}

/// A descriptor's offset after an operation that returned `code`: moved
/// on by `code` bytes when it is positive (wrapping at 2^32).
pub open spec fn advance(off: u32, code: i32) -> u32 {
    if code > 0 { vstd::wrapping::u32_specs::wrapping_add(off, code as u32) } else { off }
}

pub open spec fn with_offset(v: VfsView, fd: int, off: u32) -> VfsView {
    VfsView { fds: v.fds.update(fd, FdEntry { offset: off, ..v.fds[fd] }), ..v }
}

/// `vfs_open`: the first free slot now holds the resolved node at offset 0.
pub open spec fn open_spec(v: VfsView, s: Seq<u8>) -> (VfsView, i32) {
    match resolve(v, s) {
        None => (v, -1i32),
        Some(n) => match first_free_fd(v.fds, 0) {
            None => (v, -1i32),
            Some(i) => (VfsView { fds: v.fds.update(i, FdEntry { node: Some(n), offset: 0, in_use: true }), ..v }, i as i32),
        },
    }
}

/// A descriptor read, for descriptors other than the console's (none for
/// those): the new state, the result code and the bytes read.
pub open spec fn fd_read_spec(v: VfsView, fd: i32, size: u32) -> Option<(VfsView, i32, Seq<u8>)> {
    if !fd_ok(v, fd) {
        Some((v, -1i32, Seq::empty()))
    } else {
        let e = v.fds[fd as int];
        match e.node {
            None => Some((v, -1i32, Seq::empty())),
            Some(n) => if is_console(v, n as int) {
                None
            } else {
                match read_spec(v, n as int, e.offset, size) {
                    None => Some((v, -1i32, Seq::empty())),
                    Some(b) => Some((with_offset(v, fd as int, advance(e.offset, b.len() as i32)), b.len() as i32, b)),
                }
            },
        }
    }
}

/// A descriptor write, for descriptors other than the console's (none for
/// those): the new state and the result code.
pub open spec fn fd_write_spec(v: VfsView, fd: i32, d: Seq<u8>) -> Option<(VfsView, i32)> {
    if !fd_ok(v, fd) {
        Some((v, -1i32))
    } else {
        let e = v.fds[fd as int];
        match e.node {
            None => Some((v, -1i32)),
            Some(n) => if is_console(v, n as int) {
                None
            } else {
                let (w, c) = write_spec(v, n as int, e.offset, d);
                Some((with_offset(w, fd as int, advance(e.offset, c)), c))
            },
        }
    }
}

pub open spec fn fd_write_too_big(v: VfsView, fd: i32, len: int) -> bool {
    &&& fd_ok(v, fd)
    &&& v.fds[fd as int].node matches Some(n)
    &&& ram_write_too_big(v, n as int, v.fds[fd as int].offset as int, len)
}

/// `vfs_lseek`: the new offset from the start (0), the current offset (1)
/// or the end (2); -1 for a bad descriptor or origin, or a negative result.
pub open spec fn lseek_spec(v: VfsView, fd: i32, offset: i64, whence: u32) -> (VfsView, i64) {
    if !fd_ok(v, fd) {
        (v, -1i64)
    } else {
        let e = v.fds[fd as int];
        match e.node {
            None => (v, -1i64),
            Some(n) => {
                let target: Option<i64> = if whence == 0 {
                    Some(offset)
                } else if whence == 1 {
                    Some(vstd::wrapping::i64_specs::wrapping_add(e.offset as i64, offset))
                } else if whence == 2 {
                    Some(vstd::wrapping::i64_specs::wrapping_add(v.nodes[n as int].size as i64, offset))
                } else {
                    None
                };
                match target {
                    None => (v, -1i64),
                    Some(t) => if t < 0 { (v, -1i64) } else { (with_offset(v, fd as int, t as u32), t) },
                }
            },
        }
    }
}

impl Vfs {
    /// Set the offset of descriptor slot `fd`.
    pub fn set_offset(&mut self, fd: usize, off: u32)
        requires
            old(self).wf(),
            fd < FD_TABLE_SIZE,
        ensures
            final(self).wf(),
            final(self).view() == with_offset(old(self).view(), fd as int, off),
    {
        let e = self.fds[fd];
        self.fds.set(fd, FdEntry { offset: off, ..e });
        proof {
            assert(self.view().fds =~= with_offset(old(self).view(), fd as int, off).fds);
            assert(self.view().nodes =~= old(self).view().nodes);
        }
    }

    /// Open the node named by the C string `path` on the first free
    /// descriptor, at offset 0.
    pub fn vfs_open(&mut self, path: &[u8]) -> (r: i32)
        requires
            old(self).wf(),
        ensures
            final(self).wf(),
            (final(self).view(), r) == open_spec(old(self).view(), cstr(path@)),
    {
        let ghost v = self.view();
        let node = match self.resolve_path(path) {
            None => return -1,
            Some(n) => n,
        };
        let mut i: usize = 0;
        while i < FD_TABLE_SIZE
            invariant
                v == self.view(),
                v.wf(),
                i <= FD_TABLE_SIZE,
                first_free_fd(v.fds, i as int) == first_free_fd(v.fds, 0),
                (node as int) < v.nodes.len(),
                resolve(v, cstr(path@)) == Some(node),
                v == old(self).view(),
            decreases FD_TABLE_SIZE - i,
        {
            if !self.fds[i].in_use {
                self.fds.set(i, FdEntry { node: Some(node), offset: 0, in_use: true });
                proof {
                    assert(self.view().fds =~= v.fds.update(i as int, FdEntry { node: Some(node), offset: 0, in_use: true }));
                    assert(self.view().nodes =~= v.nodes);
                }
                return i as i32;
            }
            i = i + 1;
        }
        -1
    }

    /// Read up to `size` bytes at the descriptor's offset and move the
    /// offset past what was read.
    pub fn vfs_fd_read(&mut self, fd: i32, size: u32) -> (r: FdRead)
        requires
            old(self).wf(),
        ensures
            final(self).wf(),
            match r {
                FdRead::Console => fd_read_spec(old(self).view(), fd, size) is None && final(self).view() == old(self).view(),
                FdRead::Done(c, b) => fd_read_spec(old(self).view(), fd, size) == Some((final(self).view(), c, b@)),
            },
    {
        if fd < 0 || fd >= FD_TABLE_SIZE as i32 || !self.fds[fd as usize].in_use {
            return FdRead::Done(-1, Vec::new());
        }
        let i = fd as usize;
        let e = self.fds[i];
        let node = match e.node {
            None => return FdRead::Done(-1, Vec::new()),
            Some(n) => n,
        };
        match self.read(node, e.offset, size) {
            ReadResult::Console => FdRead::Console,
            ReadResult::Fail => FdRead::Done(-1, Vec::new()),
            ReadResult::Data(b) => {
                let c = b.len() as i32;
                if c > 0 {
                    let off = e.offset.wrapping_add(c as u32);
                    self.set_offset(i, off);
                } else {
                    proof { assert(self.view().fds =~= with_offset(self.view(), i as int, e.offset).fds); }
                }
                FdRead::Done(c, b)
            },
        }
    }

    /// Write `d` at the descriptor's offset and move the offset past it.
    pub fn vfs_fd_write(&mut self, fd: i32, d: &[u8]) -> (r: WriteResult)
        requires
            old(self).wf(),
            d@.len() <= u32::MAX,
            !fd_write_too_big(old(self).view(), fd, d@.len() as int),
        ensures
            final(self).wf(),
            match r {
                WriteResult::Console => fd_write_spec(old(self).view(), fd, d@) is None && final(self).view() == old(self).view(),
                WriteResult::Done(c) => fd_write_spec(old(self).view(), fd, d@) == Some((final(self).view(), c)),
            },
    {
        if fd < 0 || fd >= FD_TABLE_SIZE as i32 || !self.fds[fd as usize].in_use {
            return WriteResult::Done(-1);
        }
        let i = fd as usize;
        let e = self.fds[i];
        let node = match e.node {
            None => return WriteResult::Done(-1),
            Some(n) => n,
        };
        let ghost v0 = self.view();
        match self.write(node, e.offset, d) {
            WriteResult::Console => WriteResult::Console,
            WriteResult::Done(c) => {
                assert(self.view().fds == v0.fds);
                if c > 0 {
                    let off = e.offset.wrapping_add(c as u32);
                    self.set_offset(i, off);
                } else {
                    proof { assert(self.view().fds =~= with_offset(self.view(), i as int, e.offset).fds); }
                }
                WriteResult::Done(c)
            },
        }
    }

    /// Move the descriptor's offset on by `code` bytes when `code` is
    /// positive, after a console read or write done by the caller.
    pub fn fd_advance(&mut self, fd: i32, code: i32)
        requires
            old(self).wf(),
        ensures
            final(self).wf(),
            fd_ok(old(self).view(), fd) ==> final(self).view() == with_offset(old(self).view(), fd as int,
                advance(old(self).view().fds[fd as int].offset, code)),
            !fd_ok(old(self).view(), fd) ==> final(self).view() == old(self).view(),
    {
        if fd < 0 || fd >= FD_TABLE_SIZE as i32 || !self.fds[fd as usize].in_use {
            return;
        }
        let i = fd as usize;
        let e = self.fds[i];
        if code > 0 {
            self.set_offset(i, e.offset.wrapping_add(code as u32));
        } else {
            proof { assert(self.view().fds =~= with_offset(self.view(), i as int, e.offset).fds); }
        }
    }

    /// Free a descriptor slot (any slot in range, open or not).
    pub fn vfs_close(&mut self, fd: i32)
        requires
            old(self).wf(),
        ensures
            final(self).wf(),
            0 <= fd < FD_TABLE_SIZE ==> final(self).view() == (VfsView { fds: old(self).view().fds.update(fd as int, free_fd()), ..old(self).view() }),
            !(0 <= fd < FD_TABLE_SIZE) ==> final(self).view() == old(self).view(),
    {
        if fd < 0 || fd >= FD_TABLE_SIZE as i32 {
            return;
        }
        self.fds.set(fd as usize, FdEntry { node: None, offset: 0, in_use: false });
        proof {
            assert(self.view().fds =~= old(self).view().fds.update(fd as int, free_fd()));
            assert(self.view().nodes =~= old(self).view().nodes);
        }
    }

    /// Set a descriptor's offset from the start (`whence` 0), from the
    /// current offset (1) or from the end of the node (2).
    pub fn vfs_lseek(&mut self, fd: i32, offset: i64, whence: u32) -> (r: i64)
        requires
            old(self).wf(),
        ensures
            final(self).wf(),
            (final(self).view(), r) == lseek_spec(old(self).view(), fd, offset, whence),
    {
        if fd < 0 || fd >= FD_TABLE_SIZE as i32 || !self.fds[fd as usize].in_use {
            return -1;
        }
        let i = fd as usize;
        let e = self.fds[i];
        let node = match e.node {
            None => return -1,
            Some(n) => n,
        };
        let new_off: i64 = if whence == 0 {
            offset
        } else if whence == 1 {
            (e.offset as i64).wrapping_add(offset)
        } else if whence == 2 {
            (self.nodes[node].size as i64).wrapping_add(offset)
        } else {
            return -1;
        };
        if new_off < 0 {
            return -1;
        }
        self.set_offset(i, new_off as u32);
        new_off
    }
}

// ---- Building the tree ---------------------------------------------------------

/// The node that mounts ramdisk file number `i`.
pub open spec fn initrd_node(f: InitrdView, i: int) -> NodeView {
    NodeView {
        name: f.name,
        flags: VFS_FILE,
        size: f.size,
        inode: i as u32,
        kind: NodeKind::InitrdFile,
        data: f.data,
        children: Seq::empty(),
        parent: None,
    }
}

/// The first `k` ramdisk files mounted, in order, under `root` (a file
/// that finds `root` full stays unattached).
pub open spec fn mount_files(v: VfsView, root: int, files: Seq<InitrdView>, k: int) -> VfsView
    decreases k,
{
    if k <= 0 {
        v
    } else {
        let w = mount_files(v, root, files, k - 1);
        let n = w.nodes.len();
        add_child_spec(VfsView { nodes: w.nodes.push(initrd_node(files[k - 1], k - 1)), ..w }, root, n as int).0
    }
}

/// A device node.
pub open spec fn dev_node(name: Seq<u8>, kind: NodeKind) -> NodeView {
    NodeView {
        name,
        flags: VFS_FILE | VFS_DEVICE,
        size: 0,
        inode: 0,
        kind,
        data: Seq::empty(),
        children: Seq::empty(),
        parent: None,
    }
}

/// `/dev`: a directory named `dev` holding `null`, `zero` and `console`,
/// added under `root`.
pub open spec fn devfs_spec(v: VfsView, root: int) -> VfsView {
    let n = v.nodes.len() as int;
    let w = VfsView {
        nodes: v.nodes
            .push(dir_node(seq![0x64u8, 0x65, 0x76]))
            .push(dev_node(seq![0x6eu8, 0x75, 0x6c, 0x6c], NodeKind::DevNull))
            .push(dev_node(seq![0x7au8, 0x65, 0x72, 0x6f], NodeKind::DevZero))
            .push(dev_node(seq![0x63u8, 0x6f, 0x6e, 0x73, 0x6f, 0x6c, 0x65], NodeKind::DevConsole)),
        ..v
    };
    let w1 = add_child_spec(w, n, n + 1).0;
    let w2 = add_child_spec(w1, n, n + 2).0;
    let w3 = add_child_spec(w2, n, n + 3).0;
    add_child_spec(w3, root, n).0
}

/// A fresh file system: the root directory `/` alone, no descriptor open.
pub open spec fn fresh_vfs() -> VfsView {
    VfsView {
        nodes: seq![dir_node(seq![0x2fu8])],
        fds: Seq::new(FD_TABLE_SIZE as nat, |i: int| free_fd()),
        root: 0,
    }
}

/// An empty RAM file.
pub open spec fn ram_node(name: Seq<u8>) -> NodeView {
    NodeView {
        name,
        flags: VFS_FILE,
        size: 0,
        inode: 0,
        kind: NodeKind::RamFile,
        data: Seq::empty(),
        children: Seq::empty(),
        parent: None,
    }
}

/// `create_file`: the root's child of that name when there is one (of any
/// kind), else a new empty RAM file under the root; none when the root is
/// full.
pub open spec fn create_file_spec(v: VfsView, key: Seq<u8>) -> (VfsView, Option<usize>) {
    match find_child(v, v.root as int, key) {
        Some(e) => (v, Some(e)),
        None => if v.nodes[v.root as int].children.len() >= VFS_MAX_CHILDREN {
            (v, None)
        } else {
            let n = v.nodes.len();
            (add_child_spec(VfsView { nodes: v.nodes.push(ram_node(stored_name(key))), ..v }, v.root as int, n as int).0, Some(n as usize))
        },
    }
}

impl Vfs {
    /// A file system holding the root directory `/` alone.
    pub fn new() -> (r: Vfs)
        ensures
            r.wf(),
            r.view() == fresh_vfs(),
    {
        let mut fds: Vec<FdEntry> = Vec::new();
        let mut i: usize = 0;
        while i < FD_TABLE_SIZE
            invariant
                i <= FD_TABLE_SIZE,
                fds@ == Seq::new(i as nat, |q: int| free_fd()),
            decreases FD_TABLE_SIZE - i,
        {
            fds.push(FdEntry { node: None, offset: 0, in_use: false });
            i = i + 1;
            assert(fds@ =~= Seq::new(i as nat, |q: int| free_fd()));
        }
        let mut root = blank_node();
        root.name.push(0x2f);
        let mut nodes: Vec<VfsNode> = Vec::new();
        nodes.push(root);
        let r = Vfs { nodes, fds, root: 0 };
        proof {
            assert(r.view().nodes =~= seq![dir_node(seq![0x2fu8])]);
            assert(r.view() == fresh_vfs());
        }
        r
    }

    /// Mount every ramdisk file under `root`.
    pub fn init_vfs(&mut self, root: usize, t: &InitrdTable)
        requires
            old(self).wf(),
            t.wf(),
            old(self).nodes@.len() + INITRD_MOUNT_MAX < usize::MAX,
        ensures
            final(self).wf(),
            final(self).view() == mount_files(old(self).view(), root as int, t.view(), t.view().len() as int),
            final(self).nodes@.len() == old(self).nodes@.len() + t.view().len(),
    {
        let count = t.get_count();
        let mut i: u32 = 0;
        while i < count
            invariant
                t.wf(),
                i <= count,
                count == t.view().len(),
                count <= INITRD_MOUNT_MAX,
                self.wf(),
                self.nodes@.len() == old(self).nodes@.len() + i,
                old(self).nodes@.len() + INITRD_MOUNT_MAX < usize::MAX,
                self.view() == mount_files(old(self).view(), root as int, t.view(), i as int),
            decreases count - i,
        {
            let f: &InitrdFile = &t.files[i as usize];
            proof {
                assert(initrd_file_ok(t.view()[i as int]));
                assert(f.view() == t.view()[i as int]);
            }
            let node = VfsNode {
                name: copy_bytes(&f.name),
                flags: VFS_FILE,
                size: f.size,
                inode: i,
                kind: NodeKind::InitrdFile,
                data: copy_bytes(&f.data),
                children: Vec::new(),
                parent: None,
            };
            let n = self.push_node(node);
            let _ = self.add_child(root, n);
            i = i + 1;
        }
    }

    /// Create `/dev` with its `null`, `zero` and `console` devices under
    /// `root`.
    pub fn devfs_init(&mut self, root: usize)
        requires
            old(self).wf(),
            old(self).nodes@.len() + 4 < usize::MAX,
        ensures
            final(self).wf(),
            final(self).view() == devfs_spec(old(self).view(), root as int),
    {
        let dev = VfsNode {
            name: vec![0x64u8, 0x65, 0x76],
            flags: VFS_DIRECTORY,
            size: 0,
            inode: 0,
            kind: NodeKind::Dir,
            data: Vec::new(),
            children: Vec::new(),
            parent: None,
        };
        let d = self.push_node(dev);
        let null_node = make_device(vec![0x6eu8, 0x75, 0x6c, 0x6c], NodeKind::DevNull);
        let zero_node = make_device(vec![0x7au8, 0x65, 0x72, 0x6f], NodeKind::DevZero);
        let console_node = make_device(vec![0x63u8, 0x6f, 0x6e, 0x73, 0x6f, 0x6c, 0x65], NodeKind::DevConsole);
        let a = self.push_node(null_node);
        let b = self.push_node(zero_node);
        let c = self.push_node(console_node);
        let _ = self.add_child(d, a);
        let _ = self.add_child(d, b);
        let _ = self.add_child(d, c);
        let _ = self.add_child(root, d);
    }

    /// The file system at boot: the root directory, the ramdisk files
    /// under it, then `/dev`.
    pub fn init(t: &InitrdTable) -> (r: Vfs)
        requires
            t.wf(),
        ensures
            r.wf(),
            r.view() == devfs_spec(mount_files(fresh_vfs(), 0, t.view(), t.view().len() as int), 0),
    {
        let mut v = Vfs::new();
        v.init_vfs(0, t);
        v.devfs_init(0);
        v
    }

    /// The child of the root named by the C string `name`.
    pub fn finddir_root(&self, name: &[u8]) -> (r: Option<usize>)
        requires
            self.wf(),
        ensures
            r == find_child(self.view(), self.view().root as int, cstr(name@)),
    {
        self.finddir(self.root, name)
    }

    /// Create an empty RAM file named by the C string `name` under the
    /// root; a child of the root that already has the name is returned
    /// instead.
    pub fn create_file(&mut self, name: &[u8]) -> (r: Option<usize>)
        requires
            old(self).wf(),
            old(self).nodes@.len() < usize::MAX,
        ensures
            final(self).wf(),
            (final(self).view(), r) == create_file_spec(old(self).view(), cstr(name@)),
    {
        let root = self.root;
        match self.finddir(root, name) {
            Some(e) => Some(e),
            None => {
                if self.nodes[root].children.len() >= VFS_MAX_CHILDREN {
                    return None;
                }
                let node = VfsNode {
                    name: node_name(name),
                    flags: VFS_FILE,
                    size: 0,
                    inode: 0,
                    kind: NodeKind::RamFile,
                    data: Vec::new(),
                    children: Vec::new(),
                    parent: None,
                };
                let n = self.push_node(node);
                let _ = self.add_child(root, n);
                Some(n)
            },
        }
    }
}

/// The most files a ramdisk table holds.
pub const INITRD_MOUNT_MAX: usize = 64;

fn copy_bytes(s: &Vec<u8>) -> (r: Vec<u8>)
    ensures
        r@ == s@,
{
    let mut r: Vec<u8> = Vec::new();
    let mut i: usize = 0;
    while i < s.len()
        invariant
            i <= s@.len(),
            r@ == s@.take(i as int),
        decreases s.len() - i,
    {
        r.push(s[i]);
        i = i + 1;
        assert(r@ =~= s@.take(i as int));
    }
    assert(r@ =~= s@);
    r
}

fn make_device(name: Vec<u8>, kind: NodeKind) -> (n: VfsNode)
    ensures
        n.view() == dev_node(name@, kind),
{
    VfsNode {
        name,
        flags: VFS_FILE | VFS_DEVICE,
        size: 0,
        inode: 0,
        kind,
        data: Vec::new(),
        children: Vec::new(),
        parent: None,
    }
}

/// Reading a RAM file where a write just put bytes gives those bytes back,
/// and the file's size covers them.
pub proof fn lemma_write_then_read(v: VfsView, node: int, offset: u32, d: Seq<u8>)
    requires
        v.wf(),
        v.valid(node),
        v.nodes[node].kind == NodeKind::RamFile,
        offset as int + d.len() <= u32::MAX,
    ensures
        read_spec(write_spec(v, node, offset, d).0, node, offset, d.len() as u32) == Some(d),
        write_spec(v, node, offset, d).1 == d.len() as i32,
        write_spec(v, node, offset, d).0.nodes[node].size >= offset + d.len(),
{
    lemma_ram_write_then_read(v.nodes[node].data, offset, d);
}

/// Bytes written to a RAM file outside a later write's range read back
/// unchanged after it.
pub proof fn lemma_write_keeps_rest(old: Seq<u8>, offset: u32, d: Seq<u8>, i: int)
    requires
        0 <= i < old.len(),
        !(offset <= i < offset + d.len()),
    ensures
        ram_written(old, offset as int, d)[i] == old[i],
{
}

// ---- `mkdir -p` and path resolution -----------------------------------------

/// `b` extends `a`: same root and descriptors, no node lost or renamed or
/// changed in kind, children only appended.
pub open spec fn grows(a: VfsView, b: VfsView) -> bool {
    &&& a.root == b.root
    &&& a.nodes.len() <= b.nodes.len()
    &&& forall|i: int| 0 <= i < a.nodes.len() ==> {
        &&& (#[trigger] b.nodes[i]).name == a.nodes[i].name
        &&& b.nodes[i].kind == a.nodes[i].kind
        &&& a.nodes[i].children.len() <= b.nodes[i].children.len()
        &&& b.nodes[i].children.take(a.nodes[i].children.len() as int) == a.nodes[i].children
    }
}

proof fn lemma_grows_trans(a: VfsView, b: VfsView, c: VfsView)
    requires
        grows(a, b),
        grows(b, c),
    ensures
        grows(a, c),
{
    assert forall|i: int| 0 <= i < a.nodes.len() implies {
        &&& (#[trigger] c.nodes[i]).name == a.nodes[i].name
        &&& c.nodes[i].kind == a.nodes[i].kind
        &&& a.nodes[i].children.len() <= c.nodes[i].children.len()
        &&& c.nodes[i].children.take(a.nodes[i].children.len() as int) == a.nodes[i].children
    } by {
        assert(b.nodes[i].name == a.nodes[i].name);
        assert(c.nodes[i].name == b.nodes[i].name);
        let la = a.nodes[i].children.len() as int;
        assert(c.nodes[i].children.take(la) =~= b.nodes[i].children.take(la));
    }
}

proof fn lemma_first_named_grows(na: Seq<NodeView>, nb: Seq<NodeView>, ka: Seq<usize>, kb: Seq<usize>, key: Seq<u8>, k: int)
    requires
        0 <= k,
        ka.len() <= kb.len(),
        kb.take(ka.len() as int) == ka,
        forall|j: int| 0 <= j < ka.len() ==> (#[trigger] ka[j]) < na.len(),
        na.len() <= nb.len(),
        forall|i: int| 0 <= i < na.len() ==> (#[trigger] nb[i]).name == na[i].name,
        first_named(na, ka, key, k) is Some,
    ensures
        first_named(nb, kb, key, k) == first_named(na, ka, key, k),
    decreases ka.len() - k,
{
    assert(kb[k] == ka[k]);
    assert(ka[k] < na.len());
    if na[ka[k] as int].name != key {
        lemma_first_named_grows(na, nb, ka, kb, key, k + 1);
    }
}

proof fn lemma_find_child_grows(a: VfsView, b: VfsView, d: int, key: Seq<u8>)
    requires
        a.wf(),
        grows(a, b),
        find_child(a, d, key) is Some,
    ensures
        find_child(b, d, key) == find_child(a, d, key),
{
    assert(node_ok(a.nodes[d], a.nodes.len() as int));
    assert(b.nodes[d].kind == a.nodes[d].kind);
    assert forall|i: int| 0 <= i < a.nodes.len() implies (#[trigger] b.nodes[i]).name == a.nodes[i].name by {
        assert(b.nodes[i].name == a.nodes[i].name);
    }
    lemma_first_named_grows(a.nodes, b.nodes, a.nodes[d].children, b.nodes[d].children, key, 0);
}

proof fn lemma_add_child_grows(v: VfsView, p: int, c: int)
    requires
        v.wf(),
    ensures
        grows(v, add_child_spec(v, p, c).0),
        add_child_spec(v, p, c).0.wf(),
        add_child_spec(v, p, c).0.nodes.len() == v.nodes.len(),
{
    let w = add_child_spec(v, p, c).0;
    if add_child_spec(v, p, c).1 == 0 {
        assert forall|i: int| 0 <= i < v.nodes.len() implies {
            &&& (#[trigger] w.nodes[i]).name == v.nodes[i].name
            &&& w.nodes[i].kind == v.nodes[i].kind
            &&& v.nodes[i].children.len() <= w.nodes[i].children.len()
            &&& w.nodes[i].children.take(v.nodes[i].children.len() as int) == v.nodes[i].children
        } by {
            assert(w.nodes[i].children.take(v.nodes[i].children.len() as int) =~= v.nodes[i].children);
        }
        assert forall|i: int| 0 <= i < w.nodes.len() implies node_ok(#[trigger] w.nodes[i], w.nodes.len() as int) by {
            assert(node_ok(v.nodes[i], v.nodes.len() as int));
        }
    } else {
        assert forall|i: int| 0 <= i < v.nodes.len() implies {
            &&& (#[trigger] w.nodes[i]).name == v.nodes[i].name
            &&& w.nodes[i].kind == v.nodes[i].kind
            &&& v.nodes[i].children.len() <= w.nodes[i].children.len()
            &&& w.nodes[i].children.take(v.nodes[i].children.len() as int) == v.nodes[i].children
        } by {
            assert(w.nodes[i].children.take(v.nodes[i].children.len() as int) =~= v.nodes[i].children);
        }
    }
}

proof fn lemma_push_grows(v: VfsView, n: NodeView)
    requires
        v.wf(),
        node_ok(n, v.nodes.len() as int),
    ensures
        grows(v, VfsView { nodes: v.nodes.push(n), ..v }),
        (VfsView { nodes: v.nodes.push(n), ..v }).wf(),
{
    let w = VfsView { nodes: v.nodes.push(n), ..v };
    assert forall|i: int| 0 <= i < v.nodes.len() implies {
        &&& (#[trigger] w.nodes[i]).name == v.nodes[i].name
        &&& w.nodes[i].kind == v.nodes[i].kind
        &&& v.nodes[i].children.len() <= w.nodes[i].children.len()
        &&& w.nodes[i].children.take(v.nodes[i].children.len() as int) == v.nodes[i].children
    } by {
        assert(w.nodes[i].children.take(v.nodes[i].children.len() as int) =~= v.nodes[i].children);
    }
    assert forall|i: int| 0 <= i < w.nodes.len() implies node_ok(#[trigger] w.nodes[i], w.nodes.len() as int) by {
        if i < v.nodes.len() {
            assert(node_ok(v.nodes[i], v.nodes.len() as int));
        }
    }
}

proof fn lemma_first_named_push(na: Seq<NodeView>, nb: Seq<NodeView>, kids: Seq<usize>, n: usize, key: Seq<u8>, k: int)
    requires
        0 <= k <= kids.len(),
        forall|j: int| 0 <= j < kids.len() ==> (#[trigger] kids[j]) < na.len(),
        forall|j: int| k <= j < kids.len() ==> na[kids[j] as int].name != key,
        na.len() <= nb.len(),
        forall|i: int| 0 <= i < na.len() ==> (#[trigger] nb[i]).name == na[i].name,
        nb[n as int].name == key,
    ensures
        first_named(nb, kids.push(n), key, k) == Some(n),
    decreases kids.len() - k,
{
    let kk = kids.push(n);
    if k < kids.len() {
        assert(kk[k] == kids[k]);
        assert(nb[kids[k] as int].name == na[kids[k] as int].name);
        lemma_first_named_push(na, nb, kids, n, key, k + 1);
    } else {
        assert(kk[k] == n);
    }
}

/// After a `mkdir` that succeeded, the parent's child of that name (a
/// name of at most 63 bytes) is the directory it returned.
proof fn lemma_mkdir_finds(v: VfsView, parent: int, key: Seq<u8>)
    requires
        v.wf(),
        name_ok(key),
        v.nodes.len() < usize::MAX,
    ensures
        grows(v, mkdir_spec(v, parent, key).0),
        mkdir_spec(v, parent, key).0.nodes.len() <= v.nodes.len() + 1,
        mkdir_spec(v, parent, key).0.wf(),
        mkdir_spec(v, parent, key).1 matches Some(d) ==> find_child(mkdir_spec(v, parent, key).0, parent, key) == Some(d),
{
    let r = mkdir_spec(v, parent, key);
    if v.is_dir(parent) && find_child(v, parent, key) is None && v.nodes[parent].children.len() < VFS_MAX_CHILDREN {
        let n = v.nodes.len() as int;
        let nn = dir_node(stored_name(key));
        assert(stored_name(key) == key);
        let v1 = VfsView { nodes: v.nodes.push(nn), ..v };
        lemma_push_grows(v, nn);
        lemma_add_child_grows(v1, parent, n);
        lemma_grows_trans(v, v1, r.0);
        let kids = v.nodes[parent].children;
        lemma_first_named(v.nodes, kids, key, 0);
        assert(node_ok(v.nodes[parent], v.nodes.len() as int));
        assert forall|i: int| 0 <= i < v.nodes.len() implies (#[trigger] r.0.nodes[i]).name == v.nodes[i].name by {
            assert(r.0.nodes[i].name == v.nodes[i].name);
        }
        assert(r.0.nodes[parent].children == kids.push(n as usize));
        assert(r.0 == add_child_spec(v1, parent, n).0);
        assert(v1.nodes[n] == nn);
        assert(add_child_spec(v1, parent, n).1 == 0i32);
        assert(r.0.nodes[n].name == nn.name);
        lemma_first_named_push(v.nodes, r.0.nodes, kids, n as usize, key, 0);
    } else {
        assert(grows(v, v)) by {
            assert forall|i: int| 0 <= i < v.nodes.len() implies {
                &&& (#[trigger] v.nodes[i]).name == v.nodes[i].name
                &&& v.nodes[i].kind == v.nodes[i].kind
                &&& v.nodes[i].children.len() <= v.nodes[i].children.len()
                &&& v.nodes[i].children.take(v.nodes[i].children.len() as int) == v.nodes[i].children
            } by {
                assert(v.nodes[i].children.take(v.nodes[i].children.len() as int) =~= v.nodes[i].children);
            }
        }
    }
}

proof fn lemma_mkdir_walk(v: VfsView, cur: usize, s: Seq<u8>, i: int)
    requires
        v.wf(),
        0 <= i,
        (cur as int) < v.nodes.len(),
        v.nodes.len() + s.len() - i < usize::MAX,
        forall|k: int| 0 <= k < s.len() ==> s[k] != 0,
    ensures
        grows(v, mkdir_walk(v, cur, s, i).0),
        mkdir_walk(v, cur, s, i).0.wf(),
        mkdir_walk(v, cur, s, i).1 matches Some(d) ==> walk(mkdir_walk(v, cur, s, i).0, cur, s, i) == Some(d),
    decreases s.len() - i,
{
    let r = mkdir_walk(v, cur, s, i);
    if i >= s.len() {
        assert(grows(v, v)) by {
            assert forall|j: int| 0 <= j < v.nodes.len() implies {
                &&& (#[trigger] v.nodes[j]).name == v.nodes[j].name
                &&& v.nodes[j].kind == v.nodes[j].kind
                &&& v.nodes[j].children.len() <= v.nodes[j].children.len()
                &&& v.nodes[j].children.take(v.nodes[j].children.len() as int) == v.nodes[j].children
            } by {
                assert(v.nodes[j].children.take(v.nodes[j].children.len() as int) =~= v.nodes[j].children);
            }
        }
    } else {
        let n = next_comp(s, i);
        let comp = component(s, i);
        lemma_path_steps(s, i);
        assert(name_ok(comp));
        let step = match find_child(v, cur as int, comp) {
            Some(c) => (v, Some(c)),
            None => mkdir_spec(v, cur as int, comp),
        };
        match find_child(v, cur as int, comp) {
            Some(c) => {
                lemma_first_named(v.nodes, v.nodes[cur as int].children, comp, 0);
                assert(node_ok(v.nodes[cur as int], v.nodes.len() as int));
                assert(grows(v, v)) by {
                    assert forall|j: int| 0 <= j < v.nodes.len() implies {
                        &&& (#[trigger] v.nodes[j]).name == v.nodes[j].name
                        &&& v.nodes[j].kind == v.nodes[j].kind
                        &&& v.nodes[j].children.len() <= v.nodes[j].children.len()
                        &&& v.nodes[j].children.take(v.nodes[j].children.len() as int) == v.nodes[j].children
                    } by {
                        assert(v.nodes[j].children.take(v.nodes[j].children.len() as int) =~= v.nodes[j].children);
                    }
                }
            },
            None => {
                lemma_mkdir_finds(v, cur as int, comp);
            },
        }
        assert(grows(v, step.0) && step.0.wf());
        assert(step.0.nodes.len() <= v.nodes.len() + 1);
        match step.1 {
            None => {},
            Some(c) => {
                assert(find_child(step.0, cur as int, comp) == Some(c));
                assert(step.0.is_dir(cur as int));
                lemma_first_named(step.0.nodes, step.0.nodes[cur as int].children, comp, 0);
                assert(node_ok(step.0.nodes[cur as int], step.0.nodes.len() as int));
                if n <= i || n > s.len() {
                } else {
                    lemma_mkdir_walk(step.0, c, s, n);
                    let w = mkdir_walk(step.0, c, s, n).0;
                    lemma_grows_trans(v, step.0, w);
                    lemma_find_child_grows(step.0, w, cur as int, comp);
                }
            },
        }
    }
}

/// `mkdir -p` then resolving the same path gives the directory that
/// `mkdir -p` returned.
pub proof fn lemma_mkdir_p_resolves(v: VfsView, path: Seq<u8>)
    requires
        v.wf(),
        v.nodes.len() + path.len() < usize::MAX,
    ensures
        mkdir_p_spec(v, cstr(path)).1 matches Some(d) ==> resolve(mkdir_p_spec(v, cstr(path)).0, cstr(path)) == Some(d),
        mkdir_p_spec(v, cstr(path)).0.wf(),
{
    let s = cstr(path);
    lemma_cstr(path);
    lemma_path_steps(s, 0);
    lemma_mkdir_walk(v, v.root, s, skip_slashes(s, 0));
}

// ---- Renaming ----------------------------------------------------------------------

/// Position of the first `child` in `kids` from `k` on.
pub open spec fn pos_of(kids: Seq<usize>, child: usize, k: int) -> Option<int>
    decreases kids.len() - k,
{
    if k < 0 || k >= kids.len() {
        None
    } else if kids[k] == child {
        Some(k)
    } else {
        pos_of(kids, child, k + 1)
    }
}

/// Node `o` taken out of its parent `op` (at position `k`) and renamed.
pub open spec fn detach_rename(v: VfsView, op: int, k: int, o: int, name: Seq<u8>) -> VfsView {
    let p = v.nodes[op];
    let v1 = VfsView { nodes: v.nodes.update(op, NodeView { children: p.children.remove(k), ..p }), ..v };
    let n = v1.nodes[o];
    VfsView { nodes: v1.nodes.update(o, NodeView { name: stored_name(name), ..n }), ..v1 }
}

/// `rename(old, new)`: the node `old` names leaves its parent, takes the
/// last component of `new` as its name, and is added under the directory
/// the rest of `new` names (put back under its old parent, with
/// `-ENOSPC`, when that one is full).  `-ENOENT` when `old` or the new
/// parent does not resolve, or the node is not among its parent's
/// children; -1 for the root; `-EINVAL` for an empty new path or name;
/// `-ENAMETOOLONG` for a new parent path of 255 bytes or more.
pub open spec fn rename_spec(v: VfsView, olds: Seq<u8>, news: Seq<u8>) -> (VfsView, i64) {
    match resolve(v, olds) {
        None => (v, -2i64),
        Some(o) => match v.nodes[o as int].parent {
            None => (v, -1i64),
            Some(op) => if news.len() == 0 {
                (v, -22i64)
            } else {
                let ls = last_slash(news, news.len() as int);
                if ls >= 255 {
                    (v, -36i64)
                } else {
                    let np = if ls <= 0 { Some(v.root) } else { resolve(v, news.take(ls)) };
                    match np {
                        None => (v, -2i64),
                        Some(p) => {
                            let name = news.subrange(ls + 1, news.len() as int);
                            if name.len() == 0 {
                                (v, -22i64)
                            } else {
                                match pos_of(v.nodes[op as int].children, o, 0) {
                                    None => (v, -2i64),
                                    Some(k) => {
                                        let v2 = detach_rename(v, op as int, k, o as int, name);
                                        let (v3, rc) = add_child_spec(v2, p as int, o as int);
                                        if rc < 0 { (add_child_spec(v2, op as int, o as int).0, -28i64) } else { (v3, 0i64) }
                                    },
                                }
                            }
                        },
                    }
                }
            },
        },
    }
}

proof fn lemma_pos_of(kids: Seq<usize>, child: usize, k: int)
    requires
        0 <= k,
    ensures
        pos_of(kids, child, k) matches Some(p) ==> k <= p < kids.len() && kids[p] == child,
    decreases kids.len() - k,
{
    if k < kids.len() && kids[k] != child {
        lemma_pos_of(kids, child, k + 1);
    }
}

impl Vfs {
    fn pos_of_child(&self, parent: usize, child: usize) -> (r: Option<usize>)
        requires
            self.wf(),
            (parent as int) < self.view().nodes.len(),
        ensures
            r == (match pos_of(self.view().nodes[parent as int].children, child, 0) { Some(k) => Some(k as usize), None => None }),
    {
        let ghost v = self.view();
        let kids = &self.nodes[parent].children;
        assert(kids@ == v.nodes[parent as int].children);
        let mut k: usize = 0;
        while k < kids.len()
            invariant
                v == self.view(),
                k <= kids@.len(),
                kids@ == v.nodes[parent as int].children,
                pos_of(kids@, child, k as int) == pos_of(kids@, child, 0),
            decreases kids.len() - k,
        {
            if kids[k] == child {
                return Some(k);
            }
            k = k + 1;
        }
        None
    }

    /// Take node `o` out of its parent's children (position `k`) and give
    /// it the name `name`.
    fn detach_and_rename(&mut self, op: usize, k: usize, o: usize, name: &[u8])
        requires
            old(self).wf(),
            (op as int) < old(self).view().nodes.len(),
            (o as int) < old(self).view().nodes.len(),
            k < old(self).view().nodes[op as int].children.len(),
            forall|q: int| 0 <= q < name@.len() ==> name@[q] != 0,
        ensures
            final(self).wf(),
            final(self).view() == detach_rename(old(self).view(), op as int, k as int, o as int, name@),
    {
        let ghost v = self.view();
        let mut p = blank_node();
        std::mem::swap(&mut p, &mut self.nodes[op]);
        let _ = p.children.remove(k);
        self.nodes.set(op, p);
        let ghost v1 = self.view();
        proof {
            let pv = v.nodes[op as int];
            assert(v1.nodes =~= v.nodes.update(op as int, NodeView { children: pv.children.remove(k as int), ..pv }));
        }
        let mut n = blank_node();
        std::mem::swap(&mut n, &mut self.nodes[o]);
        proof { lemma_cstr_plain(name@); }
        n.name = node_name(name);
        self.nodes.set(o, n);
        proof {
            let nv = v1.nodes[o as int];
            let w = self.view();
            assert(w.nodes =~= detach_rename(v, op as int, k as int, o as int, name@).nodes);
            assert forall|j: int| 0 <= j < w.nodes.len() implies node_ok(#[trigger] w.nodes[j], w.nodes.len() as int) by {
                assert(node_ok(v.nodes[j], v.nodes.len() as int));
                if j == op as int {
                    let pv = v.nodes[op as int];
                    assert forall|q: int| 0 <= q < v1.nodes[j].children.len() implies (#[trigger] v1.nodes[j].children[q]) < v1.nodes.len() by {
                        if q < k {
                            assert(v1.nodes[j].children[q] == pv.children[q]);
                        } else {
                            assert(v1.nodes[j].children[q] == pv.children[q + 1]);
                        }
                    }
                    assert(node_ok(v1.nodes[j], v1.nodes.len() as int));
                }
            }
        }
    }

    /// Rename and move the node named by the C string `old_path` (see
    /// `rename_spec`).
    pub fn rename(&mut self, old_path: &[u8], new_path: &[u8]) -> (r: i64)
        requires
            old(self).wf(),
        ensures
            final(self).wf(),
            (final(self).view(), r) == rename_spec(old(self).view(), cstr(old_path@), cstr(new_path@)),
    {
        let ghost v = self.view();
        let o = match self.resolve_path(old_path) {
            None => return -2,
            Some(o) => o,
        };
        assert(node_ok(v.nodes[o as int], v.nodes.len() as int));
        let op = match self.nodes[o].parent {
            None => return -1,
            Some(p) => p,
        };
        let len = strlen(new_path);
        proof {
            lemma_cstr(new_path@);
            assert(cstr(new_path@) =~= new_path@.take(len as int));
        }
        let ghost s = new_path@.take(len as int);
        if len == 0 {
            return -22;
        }
        let mut i: usize = 0;
        let mut ls: Option<usize> = None;
        while i < len
            invariant
                i <= len,
                len <= new_path@.len(),
                s == new_path@.take(len as int),
                last_slash(s, i as int) == (match ls { Some(l) => l as int, None => -1 }),
                ls matches Some(l) ==> l < i,
            decreases len - i,
        {
            if new_path[i] == 0x2f {
                ls = Some(i);
            }
            i = i + 1;
        }
        let start: usize = match ls {
            Some(l) => l + 1,
            None => 0,
        };
        let np: Option<usize> = match ls {
            None => Some(self.root),
            Some(l) => {
                if l == 0 {
                    Some(self.root)
                } else if l >= 255 {
                    return -36;
                } else {
                    proof { assert(new_path@.take(l as int) =~= s.take(l as int)); }
                    self.resolve_prefix(new_path, l)
                }
            },
        };
        let p = match np {
            None => return -2,
            Some(p) => p,
        };
        let mut name: Vec<u8> = Vec::new();
        let mut j = start;
        while j < len
            invariant
                start <= j <= len,
                len <= new_path@.len(),
                s == new_path@.take(len as int),
                name@ == s.subrange(start as int, j as int),
            decreases len - j,
        {
            name.push(new_path[j]);
            j = j + 1;
            assert(name@ =~= s.subrange(start as int, j as int));
        }
        if name.len() == 0 {
            return -22;
        }
        let k = match self.pos_of_child(op, o) {
            None => return -2,
            Some(k) => k,
        };
        proof { lemma_pos_of(v.nodes[op as int].children, o, 0); }
        self.detach_and_rename(op, k, o, &name);
        let rc = self.add_child(p, o);
        if rc < 0 {
            let _ = self.add_child(op, o);
            return -28;
        }
        0
    }
}

// ---- Creating and removing names ------------------------------------------

/// A file created in the root directory is then found there under its
/// name (a name of at most 63 bytes, none of them zero).
pub proof fn lemma_create_then_find(v: VfsView, key: Seq<u8>)
    requires
        v.wf(),
        name_ok(key),
        v.nodes.len() < usize::MAX,
    ensures
        create_file_spec(v, key).1 matches Some(n)
            ==> find_child(create_file_spec(v, key).0, v.root as int, key) == Some(n),
{
    let root = v.root as int;
    let r = create_file_spec(v, key);
    if find_child(v, root, key) is None && v.nodes[root].children.len() < VFS_MAX_CHILDREN {
        let n = v.nodes.len() as int;
        let nn = ram_node(stored_name(key));
        assert(stored_name(key) == key);
        let v1 = VfsView { nodes: v.nodes.push(nn), ..v };
        lemma_push_grows(v, nn);
        lemma_add_child_grows(v1, root, n);
        let kids = v.nodes[root].children;
        lemma_first_named(v.nodes, kids, key, 0);
        assert(node_ok(v.nodes[root], v.nodes.len() as int));
        assert forall|i: int| 0 <= i < v.nodes.len() implies (#[trigger] r.0.nodes[i]).name == v.nodes[i].name by {
            assert(r.0.nodes[i].name == v.nodes[i].name);
        }
        assert(r.0 == add_child_spec(v1, root, n).0);
        assert(add_child_spec(v1, root, n).1 == 0i32);
        assert(r.0.nodes[root].children == kids.push(n as usize));
        assert(r.0.nodes[n].name == key);
        lemma_first_named_push(v.nodes, r.0.nodes, kids, n as usize, key, 0);
    }
}

proof fn lemma_first_named_none(nodes: Seq<NodeView>, kids: Seq<usize>, key: Seq<u8>, k: int)
    requires
        0 <= k,
        forall|j: int| k <= j < kids.len() ==> nodes[#[trigger] kids[j] as int].name != key,
    ensures
        first_named(nodes, kids, key, k) is None,
    decreases kids.len() - k,
{
    if k < kids.len() {
        lemma_first_named_none(nodes, kids, key, k + 1);
    }
}

/// After unlinking a name from a directory whose children all have
/// different names, the directory has no child of that name.
pub proof fn lemma_unlink_then_find(v: VfsView, parent: int, key: Seq<u8>)
    requires
        v.wf(),
        v.is_dir(parent),
        forall|a: int, b: int| 0 <= a < b < v.nodes[parent].children.len()
            ==> v.nodes[v.nodes[parent].children[a] as int].name != v.nodes[v.nodes[parent].children[b] as int].name,
    ensures
        find_child(unlink_spec(v, parent, key).0, parent, key) is None,
{
    let kids = v.nodes[parent].children;
    let w = unlink_spec(v, parent, key).0;
    lemma_first_named(v.nodes, kids, key, 0);
    match first_named_pos(v.nodes, kids, key, 0) {
        None => {},
        Some(k) => {
            let kids2 = kids.remove(k);
            assert(w.nodes[parent].children == kids2);
            assert forall|j: int| 0 <= j < kids2.len() implies w.nodes[#[trigger] kids2[j] as int].name != key by {
                let o = if j < k { j } else { j + 1 };
                assert(kids2[j] == kids[o]);
                assert(o != k);
                if o < k {
                    assert(v.nodes[kids[o] as int].name != v.nodes[kids[k] as int].name);
                } else {
                    assert(v.nodes[kids[k] as int].name != v.nodes[kids[o] as int].name);
                }
                assert(w.nodes[kids2[j] as int].name == v.nodes[kids2[j] as int].name);
            }
            lemma_first_named_none(w.nodes, kids2, key, 0);
        },
    }
}

proof fn lemma_walk_valid(v: VfsView, cur: usize, s: Seq<u8>, i: int)
    requires
        v.wf(),
        (cur as int) < v.nodes.len(),
    ensures
        walk(v, cur, s, i) matches Some(c) ==> (c as int) < v.nodes.len(),
    decreases s.len() - i,
{
    if 0 <= i < s.len() {
        match find_child(v, cur as int, component(s, i)) {
            None => {},
            Some(c) => {
                lemma_first_named(v.nodes, v.nodes[cur as int].children, component(s, i), 0);
                assert(node_ok(v.nodes[cur as int], v.nodes.len() as int));
                let n = next_comp(s, i);
                if !(n <= i || n > s.len()) {
                    lemma_walk_valid(v, c, s, n);
                }
            },
        }
    }
}

/// The directory a rename's new path puts the node in.
pub open spec fn new_parent(v: VfsView, news: Seq<u8>) -> Option<usize> {
    let ls = last_slash(news, news.len() as int);
    if ls <= 0 { Some(v.root) } else { resolve(v, news.take(ls)) }
}

/// The name a rename's new path gives the node.
pub open spec fn new_name(news: Seq<u8>) -> Seq<u8> {
    news.subrange(last_slash(news, news.len() as int) + 1, news.len() as int)
}

proof fn lemma_first_named_appended(nodes: Seq<NodeView>, kids: Seq<usize>, o: usize, key: Seq<u8>, k: int)
    requires
        0 <= k <= kids.len(),
        forall|j: int| k <= j < kids.len() ==> #[trigger] kids[j] == o || nodes[kids[j] as int].name != key,
        nodes[o as int].name == key,
    ensures
        first_named(nodes, kids.push(o), key, k) == Some(o),
    decreases kids.len() - k,
{
    let kk = kids.push(o);
    if k < kids.len() {
        assert(kk[k] == kids[k]);
        if kids[k] != o {
            lemma_first_named_appended(nodes, kids, o, key, k + 1);
        }
    } else {
        assert(kk[k] == o);
    }
}

/// After a rename succeeds, the directory that the new path's prefix
/// named holds the node under the new name (a name of at most 63 bytes,
/// which no other child of that directory had).
pub proof fn lemma_rename_then_find(v: VfsView, olds: Seq<u8>, news: Seq<u8>)
    requires
        v.wf(),
        new_name(news).len() <= VFS_NAME_MAX,
        new_parent(v, news) matches Some(p) ==> forall|j: int| 0 <= j < v.nodes[p as int].children.len()
            ==> resolve(v, olds) != Some(#[trigger] v.nodes[p as int].children[j])
            ==> v.nodes[v.nodes[p as int].children[j] as int].name != new_name(news),
    ensures
        rename_spec(v, olds, news).1 == 0 ==> find_child(rename_spec(v, olds, news).0, new_parent(v, news).unwrap() as int, new_name(news))
            == resolve(v, olds),
{
    if rename_spec(v, olds, news).1 == 0 {
        let o = resolve(v, olds).unwrap();
        lemma_walk_valid(v, v.root, olds, skip_slashes(olds, 0));
        assert(node_ok(v.nodes[o as int], v.nodes.len() as int));
        let op = v.nodes[o as int].parent.unwrap();
        let p = new_parent(v, news).unwrap();
        let name = new_name(news);
        let k = pos_of(v.nodes[op as int].children, o, 0).unwrap();
        lemma_pos_of(v.nodes[op as int].children, o, 0);
        let v2 = detach_rename(v, op as int, k, o as int, name);
        let v3 = add_child_spec(v2, p as int, o as int).0;
        assert(add_child_spec(v2, p as int, o as int).1 == 0i32);
        assert(rename_spec(v, olds, news).0 == v3);
        assert(stored_name(name) == name);
        let kids2 = v2.nodes[p as int].children;
        assert(v3.nodes[p as int].children == kids2.push(o));
        assert(v3.nodes[o as int].name == name);
        let kids = v.nodes[op as int].children;
        assert(0 <= k < kids.len());
        assert(v2.nodes.len() == v.nodes.len());
        assert(p == op ==> kids2 == kids.remove(k));
        assert(p != op ==> kids2 == v.nodes[p as int].children);
        assert forall|c: int| 0 <= c < v.nodes.len() && c != o implies #[trigger] v3.nodes[c].name == v.nodes[c].name by {
            assert(v2.nodes[c].name == v.nodes[c].name);
        }
        assert forall|j: int| 0 <= j < kids2.len() implies #[trigger] kids2[j] == o || v3.nodes[kids2[j] as int].name != name by {
            let idx = if p == op && j >= k { j + 1 } else { j };
            assert(kids2[j] == v.nodes[p as int].children[idx]);
            assert(node_ok(v.nodes[p as int], v.nodes.len() as int));
            assert(v.nodes[p as int].children[idx] < v.nodes.len());
            if kids2[j] != o {
                assert(v3.nodes[kids2[j] as int].name == v.nodes[kids2[j] as int].name);
            }
        }
        lemma_first_named_appended(v3.nodes, kids2, o, name, 0);
    }
}

} // verus!
