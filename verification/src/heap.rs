//! Kernel heap: a first-fit free-list allocator with boundary tags.  The
//! heap is a list of blocks, each a 12-byte header followed by its usable
//! bytes, laid end to end from `HEAP_START` over the pages mapped so far.
//! Large free blocks are split on allocation; adjacent free blocks are
//! merged on release; the heap grows by whole pages from the physical
//! page allocator.

use vstd::prelude::*;
use crate::pmm::{Pmm, first_free_page, lemma_first_free_page_range, MAX_PAGES, PAGE_SIZE};

verus! {

pub const HEAP_START: u32 = 0x0050_0000;
pub const HEAP_INITIAL_PAGES: u32 = 256;
pub const HEAP_MAX_PAGES: u32 = 16384;
/// A block is split only when the remainder holds a header and this many
/// bytes.
pub const MIN_SPLIT: u32 = 16;
pub const HEADER_SIZE: u32 = 12;
/// Pages the heap grows by at the least.
pub const HEAP_MIN_GROW: u32 = 16;

/// One block: where its header is, its usable size, and whether it is free.
#[derive(Clone, Copy)]
pub struct Block {
    pub addr: u32,
    pub size: u32,
    pub is_free: bool,
}

pub struct Heap {
    /// The blocks in address order.
    pub blocks: Vec<Block>,
    /// Pages mapped for the heap.
    pub heap_pages: u32,
}

/// Bytes taken by the first `n` blocks, headers included.
pub open spec fn span(bs: Seq<Block>, n: int) -> int
    decreases n,
{
    if n <= 0 {
        0
    } else {
        span(bs, n - 1) + HEADER_SIZE + bs[n - 1].size
    }
}

/// Usable bytes in the free blocks among the first `n`.
pub open spec fn free_bytes(bs: Seq<Block>, n: int) -> int
    decreases n,
{
    if n <= 0 {
        0
    } else {
        free_bytes(bs, n - 1) + if bs[n - 1].is_free { bs[n - 1].size as int } else { 0 }
    }
}

/// The blocks tile the mapped pages: each header sits right after the
/// previous block, the first at `HEAP_START`, and together they cover the
/// pages exactly; sizes keep every block 4-byte aligned.
pub open spec fn tiled(bs: Seq<Block>, pages: int) -> bool {
    &&& span(bs, bs.len() as int) == pages * (PAGE_SIZE as int)
    &&& forall|i: int| 0 <= i < bs.len() ==> (#[trigger] bs[i]).addr == HEAP_START + span(bs, i)
    &&& forall|i: int| 0 <= i < bs.len() ==> (#[trigger] bs[i]).size % 4 == 0
}

/// Index of the first of the first `n` blocks that is free and holds `a`
/// bytes.
pub open spec fn first_fit(bs: Seq<Block>, n: int, a: u32) -> Option<int>
    decreases n,
{
    if n <= 0 {
        None
    } else {
        match first_fit(bs, n - 1, a) {
            Some(i) => Some(i),
            None => if bs[n - 1].is_free && bs[n - 1].size >= a { Some(n - 1) } else { None },
        }
    }
}

/// The blocks after allocating `a` bytes from block `i`: the block is
/// marked used, and when the rest can hold a header and `MIN_SPLIT` bytes it
/// is cut off as a new free block right after.
pub open spec fn alloc_at(bs: Seq<Block>, i: int, a: u32) -> Seq<Block> {
    let b = bs[i];
    if b.size >= a + HEADER_SIZE + MIN_SPLIT {
        bs.update(i, Block { addr: b.addr, size: a, is_free: false }).insert(
            i + 1,
            Block { addr: (b.addr + HEADER_SIZE + a) as u32, size: (b.size - a - HEADER_SIZE) as u32, is_free: true },
        )
    } else {
        bs.update(i, Block { is_free: false, ..b })
    }
}

/// Block `i` absorbing block `i + 1`.
pub open spec fn merge_at(bs: Seq<Block>, i: int) -> Seq<Block> {
    bs.update(i, Block { addr: bs[i].addr, size: (bs[i].size + HEADER_SIZE + bs[i + 1].size) as u32, is_free: true })
        .remove(i + 1)
}

/// Merge, from block `i` on, every free block with the free blocks that
/// follow it directly.
pub open spec fn coalesce_from(bs: Seq<Block>, i: int) -> Seq<Block>
    decreases bs.len() - i,
{
    if i < 0 || i + 1 >= bs.len() {
        bs
    } else if bs[i].is_free && bs[i + 1].is_free && bs[i + 1].addr == bs[i].addr + HEADER_SIZE + bs[i].size {
        coalesce_from(merge_at(bs, i), i)
    } else {
        coalesce_from(bs, i + 1)
    }
}

proof fn lemma_span_mono(bs: Seq<Block>, a: int, b: int)
    requires
        0 <= a <= b <= bs.len(),
    ensures
        span(bs, a) + (b - a) * HEADER_SIZE <= span(bs, b),
    decreases b - a,
{
    if b > a {
        lemma_span_mono(bs, a, b - 1);
    }
}

proof fn lemma_span_prefix(a: Seq<Block>, b: Seq<Block>, n: int)
    requires
        0 <= n <= a.len(),
        n <= b.len(),
        forall|k: int| 0 <= k < n ==> (#[trigger] a[k]).size == b[k].size,
    ensures
        span(a, n) == span(b, n),
    decreases n,
{
    if n > 0 {
        lemma_span_prefix(a, b, n - 1);
    }
}

proof fn lemma_free_bytes_bound(bs: Seq<Block>, n: int)
    requires
        0 <= n <= bs.len(),
    ensures
        0 <= free_bytes(bs, n) <= span(bs, n),
    decreases n,
{
    if n > 0 {
        lemma_free_bytes_bound(bs, n - 1);
    }
}

/// Splitting block `i` keeps the span of every prefix that ends at a block
/// boundary of the unsplit blocks.
proof fn lemma_span_split(bs: Seq<Block>, i: int, a: u32, n: int)
    requires
        0 <= i < bs.len(),
        bs[i].size >= a + HEADER_SIZE + MIN_SPLIT,
        0 <= n <= bs.len() + 1,
    ensures
        ({
            let s = alloc_at(bs, i, a);
            &&& n <= i ==> span(s, n) == span(bs, n)
            &&& n == i + 1 ==> span(s, n) == span(bs, i) + HEADER_SIZE + a
            &&& n >= i + 2 ==> span(s, n) == span(bs, n - 1)
        }),
    decreases n,
{
    let s = alloc_at(bs, i, a);
    if n > 0 {
        lemma_span_split(bs, i, a, n - 1);
    }
}

/// Merging blocks `i` and `i + 1` keeps the span of every prefix that ends
/// at a block boundary of the result.
proof fn lemma_span_merge(bs: Seq<Block>, i: int, n: int)
    requires
        0 <= i,
        i + 1 < bs.len(),
        bs[i].size + HEADER_SIZE + bs[i + 1].size <= u32::MAX,
        0 <= n <= bs.len() - 1,
    ensures
        n <= i ==> span(merge_at(bs, i), n) == span(bs, n),
        n > i ==> span(merge_at(bs, i), n) == span(bs, n + 1),
    decreases n,
{
    if n > 0 {
        lemma_span_merge(bs, i, n - 1);
        let m = merge_at(bs, i);
        if n == i + 1 {
            assert(span(bs, i + 2) == span(bs, i + 1) + HEADER_SIZE + bs[i + 1].size);
        }
        if n > i + 1 {
            assert(m[n - 1] == bs[n]);
        }
    }
}

/// Allocating from a free block that holds the request keeps the blocks
/// tiling the same pages.
proof fn lemma_alloc_tiled(bs: Seq<Block>, pages: int, i: int, a: u32)
    requires
        tiled(bs, pages),
        pages <= HEAP_MAX_PAGES,
        0 <= i < bs.len(),
        bs[i].is_free,
        bs[i].size >= a,
        a % 4 == 0,
        a <= u32::MAX - PAGE_SIZE,
    ensures
        tiled(alloc_at(bs, i, a), pages),
{
    if bs[i].size >= a + HEADER_SIZE + MIN_SPLIT {
        lemma_split_tiled(bs, pages, i, a);
    } else {
        let s = alloc_at(bs, i, a);
        lemma_span_prefix(bs, s, bs.len() as int);
        assert forall|k: int| 0 <= k < s.len() implies (#[trigger] s[k]).addr == HEAP_START + span(s, k) by {
            lemma_span_prefix(bs, s, k);
        }
    }
}

proof fn lemma_split_tiled(bs: Seq<Block>, pages: int, i: int, a: u32)
    requires
        tiled(bs, pages),
        pages <= HEAP_MAX_PAGES,
        0 <= i < bs.len(),
        bs[i].size >= a + HEADER_SIZE + MIN_SPLIT,
        a % 4 == 0,
    ensures
        tiled(alloc_at(bs, i, a), pages),
{
    let s = alloc_at(bs, i, a);
    let n = bs.len() as int;
    lemma_span_split(bs, i, a, n + 1);
    assert forall|k: int| 0 <= k < s.len() implies (#[trigger] s[k]).addr == HEAP_START + span(s, k) && s[k].size % 4 == 0 by {
        lemma_split_block(bs, pages, i, a, k);
    }
}

proof fn lemma_split_block(bs: Seq<Block>, pages: int, i: int, a: u32, k: int)
    requires
        tiled(bs, pages),
        pages <= HEAP_MAX_PAGES,
        0 <= i < bs.len(),
        bs[i].size >= a + HEADER_SIZE + MIN_SPLIT,
        a % 4 == 0,
        0 <= k <= bs.len(),
    ensures
        alloc_at(bs, i, a)[k].addr == HEAP_START + span(alloc_at(bs, i, a), k),
        alloc_at(bs, i, a)[k].size % 4 == 0,
{
    let s = alloc_at(bs, i, a);
    lemma_span_split(bs, i, a, k);
    if k > i + 1 {
        assert(s[k] == bs[k - 1]);
        assert(bs[k - 1].addr == HEAP_START + span(bs, k - 1));
    } else if k < i {
        assert(s[k] == bs[k]);
        assert(bs[k].addr == HEAP_START + span(bs, k));
    } else if k == i {
        assert(bs[i].addr == HEAP_START + span(bs, i));
    } else {
        let n = bs.len() as int;
        lemma_span_mono(bs, i + 1, n);
        assert(bs[i].addr == HEAP_START + span(bs, i));
        assert(span(bs, i + 1) == span(bs, i) + HEADER_SIZE + bs[i].size);
        assert(bs[i].size % 4 == 0);
    }
}

impl Heap {
    pub open spec fn wf(&self) -> bool {
        &&& self.heap_pages <= HEAP_MAX_PAGES
        &&& tiled(self.blocks@, self.heap_pages as int)
    }

    /// Usable bytes in free blocks.
    pub fn get_free(&self) -> (r: u32)
        requires
            self.wf(),
        ensures
            r == free_bytes(self.blocks@, self.blocks@.len() as int),
    {
        let n = self.blocks.len();
        let mut free: u32 = 0;
        let mut i: usize = 0;
        proof { lemma_free_bytes_bound(self.blocks@, n as int); }
        while i < n
            invariant
                self.wf(),
                n == self.blocks@.len(),
                i <= n,
                free == free_bytes(self.blocks@, i as int),
            decreases n - i,
        {
            proof {
                lemma_free_bytes_bound(self.blocks@, i + 1);
                lemma_span_mono(self.blocks@, i + 1, n as int);
            }
            if self.blocks[i].is_free {
                free = free + self.blocks[i].size;
            }
            i = i + 1;
        }
        free
    }

    /// Allocate `a` bytes from block `i` if it is free and large enough,
    /// splitting off the rest when worthwhile; the result is the address of
    /// the usable bytes, or 0.
    fn try_alloc(&mut self, i: usize, a: u32) -> (r: u32)
        requires
            old(self).wf(),
            i < old(self).blocks@.len(),
            a % 4 == 0,
            a <= u32::MAX - PAGE_SIZE,
        ensures
            final(self).wf(),
            final(self).heap_pages == old(self).heap_pages,
            old(self).blocks@[i as int].is_free && old(self).blocks@[i as int].size >= a ==> r == old(self).blocks@[i as int].addr + HEADER_SIZE
                && final(self).blocks@ == alloc_at(old(self).blocks@, i as int, a),
            !(old(self).blocks@[i as int].is_free && old(self).blocks@[i as int].size >= a) ==> r == 0
                && final(self).blocks@ == old(self).blocks@,
    {
        let b = self.blocks[i];
        let ghost bs = self.blocks@;
        let n = self.blocks.len();
        proof {
            lemma_span_mono(bs, i + 1, n as int);
            lemma_span_mono(bs, 0, n as int);
        }
        if b.is_free && b.size >= a {
            proof {
                lemma_alloc_tiled(bs, self.heap_pages as int, i as int, a);
                lemma_span_mono(bs, i + 1, n as int);
            }
            if b.size >= a + HEADER_SIZE + MIN_SPLIT {
                let rest = Block { addr: b.addr + HEADER_SIZE + a, size: b.size - a - HEADER_SIZE, is_free: true };
                self.blocks.set(i, Block { addr: b.addr, size: a, is_free: false });
                self.blocks.insert(i + 1, rest);
                assert(self.blocks@ == alloc_at(bs, i as int, a));
            } else {
                self.blocks.set(i, Block { is_free: false, ..b });
                assert(self.blocks@ == alloc_at(bs, i as int, a));
            }
            b.addr + HEADER_SIZE
        } else {
            0
        }
    }

    /// First-fit search for `a` bytes through the list.
    fn alloc_first_fit(&mut self, a: u32) -> (r: u32)
        requires
            old(self).wf(),
            a % 4 == 0,
            a <= u32::MAX - PAGE_SIZE,
        ensures
            final(self).wf(),
            final(self).heap_pages == old(self).heap_pages,
            match first_fit(old(self).blocks@, old(self).blocks@.len() as int, a) {
                Some(i) => r == old(self).blocks@[i].addr + HEADER_SIZE && final(self).blocks@ == alloc_at(
                    old(self).blocks@,
                    i,
                    a,
                ),
                None => r == 0 && final(self).blocks@ == old(self).blocks@,
            },
            r % 4 == 0,
            forall|q: u32, b: u32| #[trigger] holds_block(old(self).blocks@, q, b) ==> holds_block(final(self).blocks@, q, b)
                && q != r,
    {
        let n = self.blocks.len();
        let mut i: usize = 0;
        while i < n
            invariant
                self.wf(),
                self.blocks@ == old(self).blocks@,
                self.heap_pages == old(self).heap_pages,
                n == self.blocks@.len(),
                i <= n,
                first_fit(self.blocks@, i as int, a) is None,
                a % 4 == 0,
                a <= u32::MAX - PAGE_SIZE,
            decreases n - i,
        {
            let r = self.try_alloc(i, a);
            if r != 0 {
                proof {
                    assert(first_fit(old(self).blocks@, i + 1, a) == Some(i as int));
                    lemma_first_fit_stable(old(self).blocks@, i + 1, n as int, a);
                    lemma_addr_mod4(old(self).blocks@, old(self).heap_pages as int, i as int);
                    lemma_first_fit_found(old(self).blocks@, n as int, a);
                    lemma_alloc_keeps_held(old(self).blocks@, old(self).heap_pages as int, i as int, a);
                }
                return r;
            }
            proof {
                let bs = old(self).blocks@;
                if bs[i as int].is_free && bs[i as int].size >= a {
                    lemma_span_mono(bs, 0, i as int);
                    assert(bs[i as int].addr + HEADER_SIZE > 0);
                }
            }
            i = i + 1;
        }
        proof {
            assert forall|q: u32, b: u32| #[trigger] holds_block(old(self).blocks@, q, b) implies q != 0 by {
                lemma_held_in_heap(old(self).blocks@, old(self).heap_pages as int, q, b);
            }
        }
        0
    }
}

/// The data of every tiled block starts on a multiple of 4.
proof fn lemma_addr_mod4(bs: Seq<Block>, pages: int, i: int)
    requires
        tiled(bs, pages),
        0 <= i < bs.len(),
    ensures
        (bs[i].addr + HEADER_SIZE) % 4 == 0,
{
    lemma_span_mod4(bs, i);
    assert(bs[i].addr == HEAP_START + span(bs, i));
}

/// Blocks whose sizes are multiples of 4 span a multiple of 4 bytes.
proof fn lemma_span_mod4(bs: Seq<Block>, n: int)
    requires
        0 <= n <= bs.len(),
        forall|i: int| 0 <= i < bs.len() ==> (#[trigger] bs[i]).size % 4 == 0,
    ensures
        span(bs, n) % 4 == 0,
    decreases n,
{
    if n > 0 {
        lemma_span_mod4(bs, n - 1);
        assert(bs[n - 1].size % 4 == 0);
    }
}

proof fn lemma_first_fit_stable(bs: Seq<Block>, a: int, b: int, x: u32)
    requires
        0 <= a <= b,
        first_fit(bs, a, x) is Some,
    ensures
        first_fit(bs, b, x) == first_fit(bs, a, x),
    decreases b - a,
{
    if b > a {
        lemma_first_fit_stable(bs, a, b - 1, x);
    }
}

/// Index of the first of the first `n` blocks whose header is at `addr`.
pub open spec fn find_block(bs: Seq<Block>, n: int, addr: int) -> Option<int>
    decreases n,
{
    if n <= 0 {
        None
    } else {
        match find_block(bs, n - 1, addr) {
            Some(i) => Some(i),
            None => if bs[n - 1].addr == addr { Some(n - 1) } else { None },
        }
    }
}

proof fn lemma_find_block_stable(bs: Seq<Block>, a: int, b: int, addr: int)
    requires
        0 <= a <= b,
        find_block(bs, a, addr) is Some,
    ensures
        find_block(bs, b, addr) == find_block(bs, a, addr),
    decreases b - a,
{
    if b > a {
        lemma_find_block_stable(bs, a, b - 1, addr);
    }
}

proof fn lemma_find_block_range(bs: Seq<Block>, n: int, addr: int)
    ensures
        find_block(bs, n, addr) matches Some(i) ==> 0 <= i < n && bs[i].addr == addr,
    decreases n,
{
    if n > 0 {
        lemma_find_block_range(bs, n - 1, addr);
    }
}

/// Merging two neighbouring blocks keeps the blocks tiling the same pages.
proof fn lemma_merge_tiled(bs: Seq<Block>, pages: int, i: int)
    requires
        tiled(bs, pages),
        pages <= HEAP_MAX_PAGES,
        0 <= i,
        i + 1 < bs.len(),
    ensures
        bs[i].size + HEADER_SIZE + bs[i + 1].size <= u32::MAX,
        bs[i].addr + HEADER_SIZE + bs[i].size <= u32::MAX,
        tiled(merge_at(bs, i), pages),
{
    let n = bs.len() as int;
    let m = merge_at(bs, i);
    lemma_span_mono(bs, i + 2, n);
    assert(span(bs, i + 2) == span(bs, i + 1) + HEADER_SIZE + bs[i + 1].size);
    assert(bs[i].addr == HEAP_START + span(bs, i));
    lemma_span_merge(bs, i, n - 1);
    assert(bs[i + 1].size % 4 == 0);
    assert forall|k: int| 0 <= k < m.len() implies (#[trigger] m[k]).addr == HEAP_START + span(m, k) && m[k].size % 4 == 0 by {
        if k > i {
            assert(bs[k + 1].addr == HEAP_START + span(bs, k + 1));
        } else {
            assert(bs[k].addr == HEAP_START + span(bs, k));
        }
        lemma_merge_block(bs, i, k);
    }
}

proof fn lemma_merge_block(bs: Seq<Block>, i: int, k: int)
    requires
        0 <= i,
        i + 1 < bs.len(),
        0 <= k < bs.len() - 1,
        bs[i].size + HEADER_SIZE + bs[i + 1].size <= u32::MAX,
        k > i ==> bs[k + 1].addr == HEAP_START + span(bs, k + 1) && bs[k + 1].size % 4 == 0,
        k <= i ==> bs[k].addr == HEAP_START + span(bs, k) && bs[k].size % 4 == 0,
        bs[i + 1].size % 4 == 0,
    ensures
        merge_at(bs, i)[k].addr == HEAP_START + span(merge_at(bs, i), k),
        merge_at(bs, i)[k].size % 4 == 0,
{
    let m = merge_at(bs, i);
    lemma_span_merge(bs, i, k);
    if k > i {
        assert(m[k] == bs[k + 1]);
    } else if k < i {
        assert(m[k] == bs[k]);
    }
}

proof fn lemma_len_bound(bs: Seq<Block>, pages: int)
    requires
        tiled(bs, pages),
        pages <= HEAP_MAX_PAGES,
    ensures
        bs.len() <= 0x60_0000,
{
    lemma_span_mono(bs, 0, bs.len() as int);
}

proof fn lemma_coalesce_step(bs: Seq<Block>, i: int)
    requires
        0 <= i,
        i + 1 < bs.len(),
    ensures
        coalesce_from(bs, i) == if bs[i].is_free && bs[i + 1].is_free && bs[i + 1].addr == bs[i].addr + HEADER_SIZE
            + bs[i].size {
            coalesce_from(merge_at(bs, i), i)
        } else {
            coalesce_from(bs, i + 1)
        },
{
}

/// Marking a block free or used keeps the tiling.
proof fn lemma_mark_tiled(bs: Seq<Block>, pages: int, i: int, f: bool)
    requires
        tiled(bs, pages),
        0 <= i < bs.len(),
    ensures
        tiled(bs.update(i, Block { is_free: f, ..bs[i] }), pages),
{
    let s = bs.update(i, Block { is_free: f, ..bs[i] });
    lemma_span_prefix(bs, s, bs.len() as int);
    assert forall|k: int| 0 <= k < s.len() implies (#[trigger] s[k]).addr == HEAP_START + span(s, k) by {
        lemma_span_prefix(bs, s, k);
    }
}

impl Heap {
    /// Merge every run of adjacent free blocks into one.
    fn coalesce(&mut self)
        requires
            old(self).wf(),
        ensures
            final(self).wf(),
            final(self).heap_pages == old(self).heap_pages,
            final(self).blocks@ == coalesce_from(old(self).blocks@, 0),
    {
        let mut i: usize = 0;
        proof { lemma_len_bound(self.blocks@, self.heap_pages as int); }
        while i + 1 < self.blocks.len()
            invariant
                self.wf(),
                i <= self.blocks@.len() <= 0x60_0000,
                self.heap_pages == old(self).heap_pages,
                coalesce_from(old(self).blocks@, 0) == coalesce_from(self.blocks@, i as int),
            decreases self.blocks@.len() - i,
        {
            let b = self.blocks[i];
            let c = self.blocks[i + 1];
            let ghost bs = self.blocks@;
            proof {
                lemma_merge_tiled(bs, self.heap_pages as int, i as int);
                lemma_coalesce_step(bs, i as int);
            }
            if b.is_free && c.is_free && c.addr == b.addr + HEADER_SIZE + b.size {
                self.blocks.set(i, Block { addr: b.addr, size: b.size + HEADER_SIZE + c.size, is_free: true });
                self.blocks.remove(i + 1);
                assert(self.blocks@ == merge_at(bs, i as int));
            } else {
                i = i + 1;
            }
        }
    }

    /// Release the allocation whose usable bytes start at `ptr`: its block
    /// becomes free and adjacent free blocks are merged.  A null pointer, a
    /// pointer to no block, and a block already free are ignored.
    pub fn kfree(&mut self, ptr: u32)
        requires
            old(self).wf(),
        ensures
            final(self).wf(),
            final(self).heap_pages == old(self).heap_pages,
            ({
                let bs = old(self).blocks@;
                match find_block(bs, bs.len() as int, ptr - HEADER_SIZE) {
                    Some(i) => if bs[i].is_free {
                        final(self).blocks@ == bs
                    } else {
                        final(self).blocks@ == coalesce_from(bs.update(i, Block { is_free: true, ..bs[i] }), 0)
                    },
                    None => final(self).blocks@ == bs,
                }
            }),
            forall|q: u32, b: u32| #[trigger] holds_block(old(self).blocks@, q, b) && q != ptr ==> holds_block(
                final(self).blocks@,
                q,
                b,
            ),
    {
        let ghost bs = self.blocks@;
        if ptr < HEADER_SIZE {
            proof {
                lemma_find_block_range(bs, bs.len() as int, ptr - HEADER_SIZE);
            }
            return;
        }
        let h = ptr - HEADER_SIZE;
        match self.find_index(h) {
            None => {},
            Some(i) => {
                let b = self.blocks[i];
                if b.is_free {
                    return;
                }
                proof { lemma_mark_tiled(bs, self.heap_pages as int, i as int, true); }
                self.blocks.set(i, Block { is_free: true, ..b });
                let ghost b2 = self.blocks@;
                self.coalesce();
                proof {
                    lemma_find_block_at(bs, bs.len() as int, h as int);
                    assert forall|q: u32, sz: u32| #[trigger] holds_block(bs, q, sz) && q != ptr implies holds_block(
                        self.blocks@,
                        q,
                        sz,
                    ) by {
                        let j = choose|j: int| 0 <= j < bs.len() && #[trigger] bs[j].addr + HEADER_SIZE == q && !bs[j].is_free
                            && bs[j].size >= sz;
                        assert(j != i);
                        assert(b2[j] == bs[j]);
                        lemma_coalesce_keeps_used(b2, 0, bs[j]);
                        let c = coalesce_from(b2, 0);
                        let k = choose|k: int| 0 <= k < c.len() && #[trigger] c[k] == bs[j];
                        assert(c[k].addr + HEADER_SIZE == q && !c[k].is_free && c[k].size >= sz);
                    }
                }
            },
        }
    }

    /// The index of the block whose header is at `h`.
    fn find_index(&self, h: u32) -> (r: Option<usize>)
        ensures
            r matches Some(i) ==> find_block(self.blocks@, self.blocks@.len() as int, h as int) == Some(i as int)
                && i < self.blocks@.len(),
            r is None ==> find_block(self.blocks@, self.blocks@.len() as int, h as int) is None,
    {
        let n = self.blocks.len();
        let mut i: usize = 0;
        while i < n
            invariant
                n == self.blocks@.len(),
                i <= n,
                find_block(self.blocks@, i as int, h as int) is None,
            decreases n - i,
        {
            if self.blocks[i].addr == h {
                proof {
                    assert(find_block(self.blocks@, i + 1, h as int) == Some(i as int));
                    lemma_find_block_stable(self.blocks@, i + 1, n as int, h as int);
                }
                return Some(i);
            }
            i = i + 1;
        }
        None
    }
}

/// The physical page holding address `phys`.
pub open spec fn page_of(phys: u32) -> int {
    (phys / PAGE_SIZE) as int
}

/// The page flags after the pages of `maps` (virtual, physical) are
/// marked used, in order.
pub open spec fn mark_mapped(v: Seq<bool>, maps: Seq<(u32, u32)>) -> Seq<bool>
    decreases maps.len(),
{
    if maps.len() == 0 {
        v
    } else {
        mark_mapped(v, maps.drop_last()).update(page_of(maps.last().1), true)
    }
}

/// What growing a heap of `old_pages` pages by up to `req` pages did to
/// the physical page flags (`old_v` to `new_v`), with `maps` the new pages'
/// virtual and physical addresses in order: the new pages follow the heap
/// top, each physical page was free before and is distinct from the
/// others, and fewer pages than asked came only when no page was left (or
/// page 0, which the allocator cannot hand out, was the lowest free one).
pub open spec fn growth(old_pages: u32, req: u32, old_v: Seq<bool>, new_v: Seq<bool>, maps: Seq<(u32, u32)>) -> bool {
    let m = maps.len();
    let base = HEAP_START + old_pages * PAGE_SIZE;
    &&& m <= req
    &&& forall|k: int| 0 <= k < m ==> {
        &&& (#[trigger] maps[k]).0 == base + k * PAGE_SIZE
        &&& maps[k].1 != 0
        &&& maps[k].1 % PAGE_SIZE == 0
        &&& maps[k].1 / PAGE_SIZE < MAX_PAGES
        &&& !old_v[page_of(maps[k].1)]
    }
    &&& forall|j: int, k: int| 0 <= j < k < m ==> (#[trigger] maps[j]).1 != (#[trigger] maps[k]).1
    &&& m == req ==> new_v == mark_mapped(old_v, maps)
    &&& m < req ==> ((first_free_page(new_v, MAX_PAGES as int) is None && new_v == mark_mapped(old_v, maps))
        || (m == 0 && !old_v[0] && new_v == old_v.update(0, true)))
}

/// The block appended for `m` new pages at the top of a heap of
/// `old_pages` pages.
pub open spec fn grown_block(old_pages: u32, m: int) -> Block {
    Block { addr: (HEAP_START + old_pages * PAGE_SIZE) as u32, size: (m * PAGE_SIZE - HEADER_SIZE) as u32, is_free: true }
}

/// Pages to grow by for a request of `a` bytes: enough for the bytes and a
/// header, and at least 16.
pub open spec fn grow_pages(a: u32) -> u32 {
    let need = ((a + HEADER_SIZE + PAGE_SIZE - 1) / (PAGE_SIZE as int)) as u32;
    if need < HEAP_MIN_GROW { HEAP_MIN_GROW } else { need }
}

/// A request rounded up to a multiple of 4 bytes.
pub open spec fn align4(size: usize) -> u32 {
    ((size + 3) / 4 * 4) as u32
}

impl Heap {
    /// Grow the heap by up to `pages` pages taken from `pmm`: the result
    /// says whether any page came, and lists the new pages' virtual and
    /// physical addresses, which the caller maps.  The new space becomes
    /// one free block at the end.  Nothing happens when the heap would
    /// pass its page ceiling.
    fn expand_heap(&mut self, pmm: &mut Pmm, pages: u32) -> (r: (bool, Vec<(u32, u32)>))
        requires
            old(self).wf(),
            old(pmm).wf(),
            pages <= 0x10_0000,
        ensures
            final(self).wf(),
            final(pmm).wf(),
            final(pmm).total_pages == old(pmm).total_pages,
            old(self).heap_pages + pages > HEAP_MAX_PAGES ==> !r.0 && r.1@.len() == 0 && final(self).blocks@ == old(self).blocks@
                && final(self).heap_pages == old(self).heap_pages && final(pmm).view() == old(pmm).view(),
            old(self).heap_pages + pages <= HEAP_MAX_PAGES ==> {
                let m = r.1@.len() as int;
                &&& growth(old(self).heap_pages, pages, old(pmm).view(), final(pmm).view(), r.1@)
                &&& final(self).heap_pages == old(self).heap_pages + m
                &&& r.0 == (m > 0)
                &&& m > 0 ==> final(self).blocks@ == old(self).blocks@.push(grown_block(old(self).heap_pages, m))
                &&& m == 0 ==> final(self).blocks@ == old(self).blocks@
            },
    {
        let mut maps: Vec<(u32, u32)> = Vec::new();
        if self.heap_pages + pages > HEAP_MAX_PAGES {
            return (false, maps);
        }
        let old_pages = self.heap_pages;
        let base_virt = HEAP_START + old_pages * PAGE_SIZE;
        let ghost old_v = pmm.view();
        let mut mapped: u32 = 0;
        let mut i: u32 = 0;
        while i < pages
            invariant_except_break
                pmm.view() == mark_mapped(old_v, maps@),
            invariant
                pmm.wf(),
                pmm.total_pages == old(pmm).total_pages,
                old_v == old(pmm).view(),
                i <= pages,
                mapped == i,
                maps@.len() == i,
                old_pages + pages <= HEAP_MAX_PAGES,
                base_virt == HEAP_START + old_pages * PAGE_SIZE,
                forall|k: int| 0 <= k < i ==> {
                    &&& (#[trigger] maps@[k]).0 == base_virt + k * PAGE_SIZE
                    &&& maps@[k].1 != 0
                    &&& maps@[k].1 % PAGE_SIZE == 0
                    &&& maps@[k].1 / PAGE_SIZE < MAX_PAGES
                    &&& !old_v[page_of(maps@[k].1)]
                    &&& pmm.view()[page_of(maps@[k].1)]
                },
                forall|j: int, k: int| 0 <= j < k < i ==> (#[trigger] maps@[j]).1 != (#[trigger] maps@[k]).1,
                forall|q: int| 0 <= q < MAX_PAGES && old_v[q] ==> #[trigger] pmm.view()[q],
                i > 0 ==> old_v[0],
            ensures
                i <= pages,
                mapped == i,
                maps@.len() == i,
                pmm.wf(),
                pmm.total_pages == old(pmm).total_pages,
                growth(old_pages, pages, old_v, pmm.view(), maps@),
            decreases pages - i,
        {
            let ghost v = pmm.view();
            let phys = pmm.alloc_page();
            proof { lemma_first_free_page_range(v, MAX_PAGES as int); }
            if phys == 0 {
                proof {
                    match first_free_page(v, MAX_PAGES as int) {
                        Some(p) => {
                            assert(p == 0);
                            assert(!old_v[0]);
                        },
                        None => {},
                    }
                }
                break;
            }
            let virt = base_virt + i * PAGE_SIZE;
            let ghost p = first_free_page(v, MAX_PAGES as int).unwrap();
            assert(phys / PAGE_SIZE == p);
            let ghost old_maps = maps@;
            maps.push((virt, phys));
            assert(maps@.drop_last() =~= old_maps);
            mapped = mapped + 1;
            i = i + 1;
        }
        if mapped == 0 {
            return (false, maps);
        }
        let ghost bs = self.blocks@;
        let blk = Block { addr: base_virt, size: mapped * PAGE_SIZE - HEADER_SIZE, is_free: true };
        self.blocks.push(blk);
        self.heap_pages = self.heap_pages + mapped;
        proof {
            let s = self.blocks@;
            lemma_span_prefix(bs, s, bs.len() as int);
            assert forall|k: int| 0 <= k < s.len() implies (#[trigger] s[k]).addr == HEAP_START + span(s, k) && s[k].size % 4 == 0 by {
                if k < bs.len() {
                    lemma_span_prefix(bs, s, k);
                }
            }
        }
        (true, maps)
    }
}

proof fn lemma_first_fit_agree(a: Seq<Block>, b: Seq<Block>, n: int, x: u32)
    requires
        0 <= n <= a.len(),
        n <= b.len(),
        forall|k: int| 0 <= k < n ==> #[trigger] a[k] == b[k],
    ensures
        first_fit(a, n, x) == first_fit(b, n, x),
    decreases n,
{
    if n > 0 {
        lemma_first_fit_agree(a, b, n - 1, x);
    }
}

impl Heap {
    /// A heap set up with its initial 256 pages taken from `pmm` (fewer if
    /// memory runs short); the pages to map are returned beside it.
    pub fn init(pmm: &mut Pmm) -> (r: (Heap, Vec<(u32, u32)>))
        requires
            old(pmm).wf(),
        ensures
            r.0.wf(),
            final(pmm).wf(),
            final(pmm).total_pages == old(pmm).total_pages,
            growth(0, HEAP_INITIAL_PAGES, old(pmm).view(), final(pmm).view(), r.1@),
            r.0.heap_pages == r.1@.len(),
            r.1@.len() > 0 ==> r.0.blocks@ == seq![grown_block(0, r.1@.len() as int)],
            r.1@.len() == 0 ==> r.0.blocks@.len() == 0,
    {
        let mut h = Heap { blocks: Vec::new(), heap_pages: 0 };
        assert(tiled(h.blocks@, 0));
        let (_ok, maps) = h.expand_heap(pmm, HEAP_INITIAL_PAGES);
        assert(h.blocks@ =~= seq![grown_block(0, maps@.len() as int)] || maps@.len() == 0);
        (h, maps)
    }

    /// Allocate `size` bytes: the address of the usable bytes, or 0 for a
    /// zero size or when memory runs out.  The request is rounded up to a
    /// multiple of 4 and served first-fit; when no block holds it the heap
    /// grows by enough pages (at least 16) and the search runs again.  The
    /// pages the heap grew by are returned for the caller to map.
    pub fn kmalloc(&mut self, pmm: &mut Pmm, size: usize) -> (r: (u32, Vec<(u32, u32)>))
        requires
            old(self).wf(),
            old(pmm).wf(),
            size + 3 + HEADER_SIZE + PAGE_SIZE <= u32::MAX,
        ensures
            final(self).wf(),
            r.0 % 4 == 0,
            r.0 != 0 ==> holds_block(final(self).blocks@, r.0, align4(size)),
            forall|q: u32, b: u32| #[trigger] holds_block(old(self).blocks@, q, b) ==> holds_block(final(self).blocks@, q, b)
                && q != r.0,
            final(pmm).wf(),
            final(pmm).total_pages == old(pmm).total_pages,
            size == 0 ==> r.0 == 0 && r.1@.len() == 0 && final(self).blocks@ == old(self).blocks@
                && final(self).heap_pages == old(self).heap_pages && final(pmm).view() == old(pmm).view(),
            size > 0 ==> ({
                let a = align4(size);
                let bs = old(self).blocks@;
                match first_fit(bs, bs.len() as int, a) {
                    Some(i) => r.0 == bs[i].addr + HEADER_SIZE && final(self).blocks@ == alloc_at(bs, i, a)
                        && final(self).heap_pages == old(self).heap_pages && final(pmm).view() == old(pmm).view()
                        && r.1@.len() == 0,
                    None => {
                        let req = grow_pages(a);
                        let m = r.1@.len() as int;
                        let nb = grown_block(old(self).heap_pages, m);
                        &&& old(self).heap_pages + req > HEAP_MAX_PAGES ==> r.0 == 0 && m == 0
                            && final(self).blocks@ == bs && final(self).heap_pages == old(self).heap_pages
                            && final(pmm).view() == old(pmm).view()
                        &&& old(self).heap_pages + req <= HEAP_MAX_PAGES ==> {
                            &&& growth(old(self).heap_pages, req, old(pmm).view(), final(pmm).view(), r.1@)
                            &&& final(self).heap_pages == old(self).heap_pages + m
                            &&& m == 0 ==> r.0 == 0 && final(self).blocks@ == bs
                            &&& m > 0 && nb.size >= a ==> r.0 == nb.addr + HEADER_SIZE
                                && final(self).blocks@ == alloc_at(bs.push(nb), bs.len() as int, a)
                            &&& m > 0 && nb.size < a ==> r.0 == 0 && final(self).blocks@ == bs.push(nb)
                        }
                    },
                }
            }),
    {
        if size == 0 {
            return (0, Vec::new());
        }
        let x = size as u32;
        let x3 = x + 3;
        let a = x3 & !3u32;
        assert(a == x3 / 4 * 4 && a <= x3) by (bit_vector)
            requires
                a == x3 & !3u32,
        ;
        let ghost bs = self.blocks@;
        let r = self.alloc_first_fit(a);
        if r != 0 {
            proof { lemma_alloc_holds(bs, a, r); }
            return (r, Vec::new());
        }
        let mut need = (a + HEADER_SIZE + PAGE_SIZE - 1) / PAGE_SIZE;
        if need < HEAP_MIN_GROW {
            need = HEAP_MIN_GROW;
        }
        let (ok, maps) = self.expand_heap(pmm, need);
        if !ok {
            proof {
                assert forall|q: u32, b: u32| #[trigger] holds_block(bs, q, b) implies holds_block(self.blocks@, q, b) && q != 0 by {
                    lemma_held_push(bs, self.blocks@, q, b);
                    lemma_held_in_heap(bs, old(self).heap_pages as int, q, b);
                }
            }
            return (0, maps);
        }
        proof {
            let s = self.blocks@;
            lemma_first_fit_agree(bs, s, bs.len() as int, a);
            assert(first_fit(s, bs.len() as int, a) is None);
        }
        let ghost bs2 = self.blocks@;
        proof {
            assert forall|q: u32, b: u32| #[trigger] holds_block(bs, q, b) implies holds_block(bs2, q, b) by {
                lemma_held_push(bs, bs2, q, b);
            }
        }
        let r2 = self.alloc_first_fit(a);
        proof {
            if r2 != 0 {
                lemma_alloc_holds(bs2, a, r2);
            }
        }
        (r2, maps)
    }
}

/// Appending a block keeps every block in use.
proof fn lemma_held_push(bs: Seq<Block>, bs2: Seq<Block>, q: u32, b: u32)
    requires
        holds_block(bs, q, b),
        bs2 == bs || exists|x: Block| bs2 == bs.push(x),
    ensures
        holds_block(bs2, q, b),
{
    let j = choose|j: int| 0 <= j < bs.len() && #[trigger] bs[j].addr + HEADER_SIZE == q && !bs[j].is_free && bs[j].size >= b;
    if bs2 != bs {
        let x = choose|x: Block| bs2 == bs.push(x);
        assert(bs2[j] == bs[j]);
    }
    assert(0 <= j < bs2.len() && bs2[j].addr + HEADER_SIZE == q && !bs2[j].is_free && bs2[j].size >= b);
}

/// An allocation in use lies in the heap.
proof fn lemma_held_in_heap(bs: Seq<Block>, pages: int, q: u32, b: u32)
    requires
        tiled(bs, pages),
        holds_block(bs, q, b),
    ensures
        HEAP_START + HEADER_SIZE <= q,
        q + b <= HEAP_START + pages * PAGE_SIZE,
{
    let j = choose|j: int| 0 <= j < bs.len() && #[trigger] bs[j].addr + HEADER_SIZE == q && !bs[j].is_free && bs[j].size >= b;
    lemma_block_placement(bs, pages, j);
}

/// Taking bytes from a free block keeps every block in use, and the block
/// taken is none of them.
proof fn lemma_alloc_keeps_held(bs: Seq<Block>, pages: int, i: int, a: u32)
    requires
        tiled(bs, pages),
        0 <= i < bs.len(),
        bs[i].is_free,
    ensures
        forall|q: u32, b: u32| #[trigger] holds_block(bs, q, b) ==> holds_block(alloc_at(bs, i, a), q, b) && q != bs[i].addr
            + HEADER_SIZE,
{
    assert forall|q: u32, b: u32| #[trigger] holds_block(bs, q, b) implies holds_block(alloc_at(bs, i, a), q, b) && q != bs[i].addr
        + HEADER_SIZE by {
        let j = choose|j: int| 0 <= j < bs.len() && #[trigger] bs[j].addr + HEADER_SIZE == q && !bs[j].is_free && bs[j].size >= b;
        lemma_block_placement(bs, pages, i);
        assert(j != i);
        assert(bs[j].addr + HEADER_SIZE + bs[j].size <= bs[i].addr || bs[i].addr + HEADER_SIZE + bs[i].size <= bs[j].addr);
        let s = alloc_at(bs, i, a);
        let k = if j < i || bs[i].size < a + HEADER_SIZE + MIN_SPLIT { j } else { j + 1 };
        assert(s[k] == bs[j]);
        assert(0 <= k < s.len() && s[k].addr + HEADER_SIZE == q && !s[k].is_free && s[k].size >= b);
    }
}

/// Allocations in use never overlap: two blocks held at the same time
/// (`holds_block`, which `kmalloc` states of each result and keeps for
/// every earlier one until it is freed) at different addresses have
/// disjoint byte ranges, both inside the heap's pages.
pub proof fn lemma_held_disjoint(bs: Seq<Block>, pages: int, q1: u32, b1: u32, q2: u32, b2: u32)
    requires
        tiled(bs, pages),
        holds_block(bs, q1, b1),
        holds_block(bs, q2, b2),
        q1 != q2,
    ensures
        q1 + b1 <= q2 || q2 + b2 <= q1,
        HEAP_START + HEADER_SIZE <= q1,
        q1 + b1 <= HEAP_START + pages * PAGE_SIZE,
{
    let i = choose|i: int| 0 <= i < bs.len() && #[trigger] bs[i].addr + HEADER_SIZE == q1 && !bs[i].is_free && bs[i].size >= b1;
    let j = choose|j: int| 0 <= j < bs.len() && #[trigger] bs[j].addr + HEADER_SIZE == q2 && !bs[j].is_free && bs[j].size >= b2;
    lemma_block_placement(bs, pages, i);
    assert(bs[j].addr + HEADER_SIZE + bs[j].size <= bs[i].addr || bs[i].addr + HEADER_SIZE + bs[i].size <= bs[j].addr);
}

/// The block that `alloc_at` hands out for the first fit is in use, at the
/// address returned, and holds the bytes asked for.
proof fn lemma_alloc_holds(bs: Seq<Block>, a: u32, r: u32)
    requires
        match first_fit(bs, bs.len() as int, a) {
            Some(i) => r == bs[i].addr + HEADER_SIZE,
            None => false,
        },
    ensures
        holds_block(alloc_at(bs, first_fit(bs, bs.len() as int, a).unwrap(), a), r, a),
{
    let i = first_fit(bs, bs.len() as int, a).unwrap();
    lemma_first_fit_found(bs, bs.len() as int, a);
    let s = alloc_at(bs, i, a);
    assert(s[i].addr + HEADER_SIZE == r && !s[i].is_free && s[i].size >= a);
}

// ---- Freeing what was just allocated --------------------------------------

/// No two neighbouring blocks are both free.
pub open spec fn coalesced(bs: Seq<Block>) -> bool {
    forall|j: int, k: int| 0 <= j && k == j + 1 && k < bs.len() ==> !(#[trigger] bs[j].is_free && #[trigger] bs[k].is_free)
}

/// Neither of blocks `j` and `j + 1` is free, for every `j` from `k` to
/// `m`.
spec fn quiet(s: Seq<Block>, k: int, m: int) -> bool {
    forall|j: int, l: int| k <= j < m && l == j + 1 && l < s.len() ==> !(#[trigger] s[j].is_free && #[trigger] s[l].is_free)
}

proof fn lemma_first_fit_found(bs: Seq<Block>, n: int, a: u32)
    ensures
        first_fit(bs, n, a) matches Some(i) ==> 0 <= i < n && bs[i].is_free && bs[i].size >= a,
    decreases n,
{
    if n > 0 {
        lemma_first_fit_found(bs, n - 1, a);
    }
}

proof fn lemma_find_none(bs: Seq<Block>, n: int, addr: int)
    requires
        forall|j: int| 0 <= j < n ==> (#[trigger] bs[j]).addr != addr,
    ensures
        find_block(bs, n, addr) is None,
    decreases n,
{
    if n > 0 {
        lemma_find_none(bs, n - 1, addr);
    }
}

/// In tiled blocks the header addresses differ, so a block is found by its
/// own header address.
proof fn lemma_find_tiled(bs: Seq<Block>, pages: int, i: int)
    requires
        tiled(bs, pages),
        0 <= i < bs.len(),
    ensures
        find_block(bs, bs.len() as int, bs[i].addr as int) == Some(i),
{
    assert forall|j: int| 0 <= j < i implies (#[trigger] bs[j]).addr != bs[i].addr by {
        lemma_span_mono(bs, j, i);
        assert(bs[j].addr == HEAP_START + span(bs, j));
        assert(bs[i].addr == HEAP_START + span(bs, i));
    }
    lemma_find_none(bs, i, bs[i].addr as int);
    assert(find_block(bs, i + 1, bs[i].addr as int) == Some(i));
    lemma_find_block_stable(bs, i + 1, bs.len() as int, bs[i].addr as int);
}

/// Where no two neighbouring blocks from `k` to `m` are both free, merging
/// from `k` does nothing until `m`.
proof fn lemma_coalesce_quiet(s: Seq<Block>, k: int, m: int)
    requires
        0 <= k <= m,
        quiet(s, k, m),
    ensures
        k + 1 < s.len() && m + 1 < s.len() ==> coalesce_from(s, k) == coalesce_from(s, m),
        m + 1 >= s.len() ==> coalesce_from(s, k) == s,
    decreases m - k,
{
    if k < m && k + 1 < s.len() {
        lemma_coalesce_step(s, k);
        assert(!(s[k].is_free && s[k + 1].is_free));
        lemma_coalesce_quiet(s, k + 1, m);
    }
}

proof fn lemma_block_end(bs: Seq<Block>, pages: int, i: int)
    requires
        tiled(bs, pages),
        pages <= HEAP_MAX_PAGES,
        0 <= i < bs.len(),
    ensures
        bs[i].addr + HEADER_SIZE + bs[i].size <= u32::MAX,
{
    let n = bs.len() as int;
    lemma_span_mono(bs, i + 1, n);
    assert(bs[i].addr == HEAP_START + span(bs, i));
    assert(span(bs, i + 1) == span(bs, i) + HEADER_SIZE + bs[i].size);
}

/// The split block freed again merges back with its remainder.
proof fn lemma_split_merges_back(bs: Seq<Block>, i: int, a: u32)
    requires
        0 <= i < bs.len(),
        bs[i].is_free,
        bs[i].size >= a + HEADER_SIZE + MIN_SPLIT,
        bs[i].addr + HEADER_SIZE + bs[i].size <= u32::MAX,
    ensures
        ({
            let bs1 = alloc_at(bs, i, a);
            let bs2 = bs1.update(i, Block { is_free: true, ..bs1[i] });
            &&& i + 1 < bs2.len()
            &&& bs2[i].is_free && bs2[i + 1].is_free
            &&& bs2[i + 1].addr == bs2[i].addr + HEADER_SIZE + bs2[i].size
            &&& merge_at(bs2, i) == bs
            &&& forall|j: int| 0 <= j < i ==> #[trigger] bs2[j] == bs[j]
        }),
{
    let bs1 = alloc_at(bs, i, a);
    let bs2 = bs1.update(i, Block { is_free: true, ..bs1[i] });
    assert(merge_at(bs2, i) =~= bs);
}

proof fn lemma_split_then_free(bs: Seq<Block>, pages: int, i: int, a: u32)
    requires
        tiled(bs, pages),
        pages <= HEAP_MAX_PAGES,
        coalesced(bs),
        0 <= i < bs.len(),
        bs[i].is_free,
        bs[i].size >= a + HEADER_SIZE + MIN_SPLIT,
    ensures
        ({
            let bs1 = alloc_at(bs, i, a);
            coalesce_from(bs1.update(i, Block { is_free: true, ..bs1[i] }), 0) == bs
        }),
{
    let n = bs.len() as int;
    let bs1 = alloc_at(bs, i, a);
    let bs2 = bs1.update(i, Block { is_free: true, ..bs1[i] });
    lemma_block_end(bs, pages, i);
    lemma_split_merges_back(bs, i, a);
    assert(quiet(bs2, 0, i)) by {
        assert forall|j: int, l: int| 0 <= j < i && l == j + 1 && l < bs2.len() implies !(#[trigger] bs2[j].is_free && #[trigger] bs2[l].is_free) by {
            assert(bs2[j] == bs[j]);
            if l < i {
                assert(bs2[l] == bs[l]);
            }
            assert(!(bs[j].is_free && bs[l].is_free));
        }
    }
    lemma_coalesce_quiet(bs2, 0, i);
    lemma_coalesce_step(bs2, i);
    assert(quiet(bs, i, n));
    lemma_coalesce_quiet(bs, i, n);
}

/// Freeing the block that an allocation just took from a free block gives
/// back the blocks as they were, in a heap where no two neighbouring
/// blocks are free: `kfree` of what `kmalloc` returned without growing
/// the heap undoes it.
pub proof fn lemma_kmalloc_then_kfree(bs: Seq<Block>, pages: int, a: u32)
    requires
        tiled(bs, pages),
        pages <= HEAP_MAX_PAGES,
        coalesced(bs),
        a % 4 == 0,
        a <= u32::MAX - PAGE_SIZE,
        first_fit(bs, bs.len() as int, a) is Some,
    ensures
        ({
            let i = first_fit(bs, bs.len() as int, a).unwrap();
            let bs1 = alloc_at(bs, i, a);
            &&& find_block(bs1, bs1.len() as int, bs[i].addr as int) == Some(i)
            &&& !bs1[i].is_free
            &&& coalesce_from(bs1.update(i, Block { is_free: true, ..bs1[i] }), 0) == bs
        }),
{
    let n = bs.len() as int;
    lemma_first_fit_found(bs, n, a);
    let i = first_fit(bs, n, a).unwrap();
    let bs1 = alloc_at(bs, i, a);
    lemma_alloc_tiled(bs, pages, i, a);
    lemma_find_tiled(bs1, pages, i);
    if bs[i].size >= a + HEADER_SIZE + MIN_SPLIT {
        lemma_split_then_free(bs, pages, i, a);
    } else {
        let bs2 = bs1.update(i, Block { is_free: true, ..bs1[i] });
        assert(bs2 =~= bs);
        assert forall|j: int, l: int| 0 <= j < n && l == j + 1 && l < bs.len() implies !(#[trigger] bs[j].is_free && #[trigger] bs[l].is_free) by {
        }
        lemma_coalesce_quiet(bs, 0, n);
    }
}

// ---- Where blocks lie, and what freeing gives back ------------------------------

/// A block in use of at least `a` bytes whose data starts at `r`.
pub open spec fn holds_block(bs: Seq<Block>, r: u32, a: u32) -> bool {
    exists|i: int| 0 <= i < bs.len() && #[trigger] bs[i].addr + HEADER_SIZE == r && !bs[i].is_free && bs[i].size >= a
}

/// Tiled blocks lie in the heap's pages, in address order, without
/// overlapping: so the block `kmalloc` returns (see `holds_block` in its
/// contract) lies inside the heap and overlaps no other block, in use or
/// free.
pub proof fn lemma_block_placement(bs: Seq<Block>, pages: int, i: int)
    requires
        tiled(bs, pages),
        0 <= i < bs.len(),
    ensures
        HEAP_START + HEADER_SIZE <= bs[i].addr + HEADER_SIZE,
        bs[i].addr + HEADER_SIZE + bs[i].size <= HEAP_START + pages * PAGE_SIZE,
        forall|j: int| 0 <= j < bs.len() && j != i ==> (#[trigger] bs[j]).addr + HEADER_SIZE + bs[j].size <= bs[i].addr
            || bs[i].addr + HEADER_SIZE + bs[i].size <= bs[j].addr,
{
    let n = bs.len() as int;
    lemma_span_mono(bs, 0, i);
    lemma_span_mono(bs, i + 1, n);
    assert(bs[i].addr == HEAP_START + span(bs, i));
    assert(span(bs, i + 1) == span(bs, i) + HEADER_SIZE + bs[i].size);
    assert forall|j: int| 0 <= j < bs.len() && j != i implies (#[trigger] bs[j]).addr + HEADER_SIZE + bs[j].size <= bs[i].addr
        || bs[i].addr + HEADER_SIZE + bs[i].size <= bs[j].addr by {
        assert(bs[j].addr == HEAP_START + span(bs, j));
        assert(span(bs, j + 1) == span(bs, j) + HEADER_SIZE + bs[j].size);
        if j < i {
            lemma_span_mono(bs, j + 1, i);
        } else {
            lemma_span_mono(bs, i + 1, j);
        }
    }
}

proof fn lemma_free_bytes_mark(bs: Seq<Block>, i: int, n: int)
    requires
        0 <= i < bs.len(),
        !bs[i].is_free,
        0 <= n <= bs.len(),
    ensures
        free_bytes(bs.update(i, Block { is_free: true, ..bs[i] }), n)
            == free_bytes(bs, n) + if i < n { bs[i].size as int } else { 0 },
    decreases n,
{
    if n > 0 {
        lemma_free_bytes_mark(bs, i, n - 1);
    }
}

proof fn lemma_free_bytes_merge(bs: Seq<Block>, i: int, n: int)
    requires
        0 <= i,
        i + 1 < bs.len(),
        bs[i].is_free,
        bs[i + 1].is_free,
        bs[i].size + HEADER_SIZE + bs[i + 1].size <= u32::MAX,
        0 <= n <= bs.len() - 1,
    ensures
        n <= i ==> free_bytes(merge_at(bs, i), n) == free_bytes(bs, n),
        n > i ==> free_bytes(merge_at(bs, i), n) == free_bytes(bs, n + 1) + HEADER_SIZE,
    decreases n,
{
    let m = merge_at(bs, i);
    if n > 0 {
        lemma_free_bytes_merge(bs, i, n - 1);
        if n - 1 > i {
            assert(m[n - 1] == bs[n]);
        } else if n - 1 < i {
            assert(m[n - 1] == bs[n - 1]);
        } else {
            assert(m[i].is_free && m[i].size as int == bs[i].size + HEADER_SIZE + bs[i + 1].size);
            assert(free_bytes(bs, i + 1) == free_bytes(bs, i) + bs[i].size);
            assert(free_bytes(bs, i + 2) == free_bytes(bs, i + 1) + bs[i + 1].size);
        }
    }
}

/// Merging free neighbours never lowers the free total.
proof fn lemma_coalesce_free(bs: Seq<Block>, pages: int, k: int)
    requires
        tiled(bs, pages),
        pages <= HEAP_MAX_PAGES,
        0 <= k,
    ensures
        free_bytes(coalesce_from(bs, k), coalesce_from(bs, k).len() as int) >= free_bytes(bs, bs.len() as int),
    decreases bs.len() - k,
{
    if k + 1 < bs.len() {
        if bs[k].is_free && bs[k + 1].is_free && bs[k + 1].addr == bs[k].addr + HEADER_SIZE + bs[k].size {
            lemma_merge_tiled(bs, pages, k);
            lemma_free_bytes_merge(bs, k, bs.len() - 1);
            lemma_coalesce_free(merge_at(bs, k), pages, k);
        } else {
            lemma_coalesce_free(bs, pages, k + 1);
        }
    }
}

/// Freeing a block in use gives back at least its bytes: after `kfree` of
/// it the free total has grown by its size or more (merging it with free
/// neighbours frees their headers too).  With `holds_block` from
/// `kmalloc`, the gain is at least the size asked for, rounded up to 4.
pub proof fn lemma_kfree_frees(bs: Seq<Block>, pages: int, i: int)
    requires
        tiled(bs, pages),
        pages <= HEAP_MAX_PAGES,
        0 <= i < bs.len(),
        !bs[i].is_free,
    ensures
        ({
            let after = coalesce_from(bs.update(i, Block { is_free: true, ..bs[i] }), 0);
            free_bytes(after, after.len() as int) >= free_bytes(bs, bs.len() as int) + bs[i].size
        }),
{
    let b2 = bs.update(i, Block { is_free: true, ..bs[i] });
    lemma_mark_tiled(bs, pages, i, true);
    lemma_free_bytes_mark(bs, i, bs.len() as int);
    lemma_coalesce_free(b2, pages, 0);
}

/// Freeing a block that `kmalloc` handed out for `a` bytes (its result
/// `r`, see `holds_block` in its contract, where `a` is the size asked for
/// rounded up to a multiple of 4): `kfree(r)` finds the block in use, and
/// afterwards the free total (`get_free`) has grown by at least `a` bytes.
pub proof fn lemma_kfree_returns(bs: Seq<Block>, pages: int, r: u32, a: u32)
    requires
        tiled(bs, pages),
        pages <= HEAP_MAX_PAGES,
        holds_block(bs, r, a),
    ensures
        match find_block(bs, bs.len() as int, r - HEADER_SIZE) {
            Some(i) => {
                let after = coalesce_from(bs.update(i, Block { is_free: true, ..bs[i] }), 0);
                &&& !bs[i].is_free
                &&& free_bytes(after, after.len() as int) >= free_bytes(bs, bs.len() as int) + a
            },
            None => false,
        },
{
    let i = choose|i: int| 0 <= i < bs.len() && #[trigger] bs[i].addr + HEADER_SIZE == r && !bs[i].is_free && bs[i].size >= a;
    lemma_find_tiled(bs, pages, i);
    lemma_kfree_frees(bs, pages, i);
}

proof fn lemma_find_block_at(s: Seq<Block>, n: int, a: int)
    ensures
        find_block(s, n, a) matches Some(j) ==> 0 <= j < n && s[j].addr == a,
    decreases n,
{
    if n > 0 {
        lemma_find_block_at(s, n - 1, a);
    }
}

/// Coalescing keeps every block at address `a` free.
proof fn lemma_coalesce_keeps_free(bs: Seq<Block>, k: int, a: int)
    requires
        0 <= k,
        forall|j: int| 0 <= j < bs.len() && #[trigger] bs[j].addr == a ==> bs[j].is_free,
    ensures
        ({
            let c = coalesce_from(bs, k);
            forall|j: int| 0 <= j < c.len() && #[trigger] c[j].addr == a ==> c[j].is_free
        }),
    decreases bs.len() - k,
{
    if k + 1 < bs.len() {
        lemma_coalesce_step(bs, k);
        if bs[k].is_free && bs[k + 1].is_free && bs[k + 1].addr == bs[k].addr + HEADER_SIZE + bs[k].size {
            let m = merge_at(bs, k);
            assert forall|j: int| 0 <= j < m.len() && #[trigger] m[j].addr == a implies m[j].is_free by {
                if j > k {
                    assert(m[j] == bs[j + 1]);
                } else if j < k {
                    assert(m[j] == bs[j]);
                }
            }
            lemma_coalesce_keeps_free(m, k, a);
        } else {
            lemma_coalesce_keeps_free(bs, k + 1, a);
        }
    } else {
        assert(coalesce_from(bs, k) == bs);
    }
}

/// Coalescing keeps every block in use as it is.
proof fn lemma_coalesce_keeps_used(bs: Seq<Block>, k: int, x: Block)
    requires
        0 <= k,
        !x.is_free,
        exists|j: int| 0 <= j < bs.len() && #[trigger] bs[j] == x,
    ensures
        exists|j: int| 0 <= j < coalesce_from(bs, k).len() && #[trigger] coalesce_from(bs, k)[j] == x,
    decreases bs.len() - k,
{
    let j = choose|j: int| 0 <= j < bs.len() && #[trigger] bs[j] == x;
    if k + 1 < bs.len() {
        lemma_coalesce_step(bs, k);
        if bs[k].is_free && bs[k + 1].is_free && bs[k + 1].addr == bs[k].addr + HEADER_SIZE + bs[k].size {
            let m = merge_at(bs, k);
            let j2 = if j < k { j } else { j - 1 };
            assert(m[j2] == x);
            lemma_coalesce_keeps_used(m, k, x);
        } else {
            lemma_coalesce_keeps_used(bs, k + 1, x);
        }
    } else {
        assert(coalesce_from(bs, k) == bs);
        assert(coalesce_from(bs, k)[j] == x);
    }
}

/// A double free is ignored: after `kfree` of block `i`, the block found
/// at its header address, if any, is free, so a second `kfree` of the same
/// pointer leaves the blocks as they are (see `kfree`'s contract).
pub proof fn lemma_double_free_ignored(bs: Seq<Block>, pages: int, i: int)
    requires
        tiled(bs, pages),
        0 <= i < bs.len(),
    ensures
        ({
            let after = coalesce_from(bs.update(i, Block { is_free: true, ..bs[i] }), 0);
            match find_block(after, after.len() as int, bs[i].addr as int) {
                Some(j) => after[j].is_free,
                None => true,
            }
        }),
{
    let b2 = bs.update(i, Block { is_free: true, ..bs[i] });
    let a = bs[i].addr as int;
    lemma_block_placement(bs, pages, i);
    assert forall|j: int| 0 <= j < b2.len() && #[trigger] b2[j].addr == a implies b2[j].is_free by {
        if j != i {
            assert(bs[j].addr == a);
        }
    }
    lemma_coalesce_keeps_free(b2, 0, a);
    let after = coalesce_from(b2, 0);
    lemma_find_block_at(after, after.len() as int, a);
}

} // verus!
