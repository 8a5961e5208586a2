//! Bitmap-based physical page allocator: one bit per 4 KiB page, set for a
//! used or reserved page, clear for a free one.

use vstd::prelude::*;
use crate::multiboot::{MmapEntry, MMAP_ENTRY_LEN, le32, mmap_entry_at, read_mmap_entry};

verus! {

pub const PAGE_SIZE: u32 = 4096;
/// Pages covered by the bitmap (512 MiB of memory).
pub const MAX_PAGES: u32 = 131072;
/// Words in the bitmap.
pub const BITMAP_WORDS: usize = 4096;
/// Where the kernel image is loaded.
pub const KERNEL_START: u32 = 0x100000;

/// Whether page `p` is marked used in the bitmap.
pub open spec fn page_used(bm: Seq<u32>, p: int) -> bool {
    (bm[p / 32] >> ((p % 32) as u32)) & 1 == 1
}

/// The bitmap as one flag per page: true for used.
pub open spec fn pages_view(bm: Seq<u32>) -> Seq<bool> {
    Seq::new(MAX_PAGES as nat, |p: int| page_used(bm, p))
}

/// Number of free pages among the first `n`.
pub open spec fn count_free(s: Seq<bool>, n: int) -> int
    decreases n,
{
    if n <= 0 {
        0
    } else {
        count_free(s, n - 1) + if s[n - 1] { 0int } else { 1int }
    }
}

/// The physical page allocator.
pub struct Pmm {
    pub bitmap: Vec<u32>,
    pub total_pages: u32,
    pub free_pages: u32,
}

proof fn lemma_bit_set(w: u32, a: u32, b: u32)
    requires
        a < 32,
        b < 32,
    ensures
        ((w | (1u32 << a)) >> b) & 1 == (if a == b { 1u32 } else { (w >> b) & 1 }),
{
    assert(((w | (1u32 << a)) >> b) & 1 == (if a == b { 1u32 } else { (w >> b) & 1 })) by (bit_vector)
        requires
            a < 32,
            b < 32,
    ;
}

proof fn lemma_bit_clear(w: u32, a: u32, b: u32)
    requires
        a < 32,
        b < 32,
    ensures
        ((w & !(1u32 << a)) >> b) & 1 == (if a == b { 0u32 } else { (w >> b) & 1 }),
{
    assert(((w & !(1u32 << a)) >> b) & 1 == (if a == b { 0u32 } else { (w >> b) & 1 })) by (bit_vector)
        requires
            a < 32,
            b < 32,
    ;
}

proof fn lemma_bit_test(w: u32, a: u32)
    requires
        a < 32,
    ensures
        ((w & (1u32 << a)) != 0) == ((w >> a) & 1 == 1),
        (w >> a) & 1 == 0 || (w >> a) & 1 == 1,
{
    assert(((w & (1u32 << a)) != 0) == ((w >> a) & 1 == 1)) by (bit_vector)
        requires
            a < 32,
    ;
    assert((w >> a) & 1 == 0 || (w >> a) & 1 == 1) by (bit_vector);
}

proof fn lemma_full_word(a: u32)
    requires
        a < 32,
    ensures
        (0xFFFF_FFFFu32 >> a) & 1 == 1,
{
    assert((0xFFFF_FFFFu32 >> a) & 1 == 1) by (bit_vector)
        requires
            a < 32,
    ;
}

/// Changing one page's flag changes the free count by the difference.
proof fn lemma_count_update(s: Seq<bool>, p: int, b: bool, n: int)
    requires
        0 <= p < s.len(),
        0 <= n <= s.len(),
    ensures
        count_free(s.update(p, b), n) == count_free(s, n) + if p < n {
            (if b { 0int } else { 1int }) - (if s[p] { 0int } else { 1int })
        } else {
            0int
        },
    decreases n,
{
    if n > 0 {
        lemma_count_update(s, p, b, n - 1);
    }
}

proof fn lemma_count_bound(s: Seq<bool>, n: int)
    requires
        0 <= n <= s.len(),
    ensures
        0 <= count_free(s, n) <= n,
    decreases n,
{
    if n > 0 {
        lemma_count_bound(s, n - 1);
    }
}

/// Setting (or clearing) bit `a` of word `i` sets (or clears) exactly page
/// `32 * i + a`.
proof fn lemma_view_set(bm: Seq<u32>, i: int, a: u32)
    requires
        bm.len() == BITMAP_WORDS,
        0 <= i < BITMAP_WORDS,
        a < 32,
    ensures
        pages_view(bm.update(i, bm[i] | (1u32 << a))) == pages_view(bm).update(32 * i + a, true),
        pages_view(bm.update(i, bm[i] & !(1u32 << a))) == pages_view(bm).update(32 * i + a, false),
{
    let bs = bm.update(i, bm[i] | (1u32 << a));
    let bc = bm.update(i, bm[i] & !(1u32 << a));
    assert forall|p: int| 0 <= p < MAX_PAGES implies #[trigger] page_used(bs, p) == (if p == 32 * i + a { true } else { page_used(bm, p) }) by {
        if p / 32 == i {
            lemma_bit_set(bm[i], a, (p % 32) as u32);
        }
    }
    assert forall|p: int| 0 <= p < MAX_PAGES implies #[trigger] page_used(bc, p) == (if p == 32 * i + a { false } else { page_used(bm, p) }) by {
        if p / 32 == i {
            lemma_bit_clear(bm[i], a, (p % 32) as u32);
        }
    }
    assert(pages_view(bs) =~= pages_view(bm).update(32 * i + a, true));
    assert(pages_view(bc) =~= pages_view(bm).update(32 * i + a, false));
}

impl Pmm {
    /// The page flags, one per page: true for used.
    pub open spec fn view(&self) -> Seq<bool> {
        pages_view(self.bitmap@)
    }

    /// The bitmap covers every page and the free counter counts its clear
    /// bits.
    pub open spec fn wf(&self) -> bool {
        &&& self.bitmap@.len() == BITMAP_WORDS
        &&& self.free_pages == count_free(self.view(), MAX_PAGES as int)
    }

    fn bitmap_test(&self, page: u32) -> (r: bool)
        requires
            self.bitmap@.len() == BITMAP_WORDS,
            page < MAX_PAGES,
        ensures
            r == self.view()[page as int],
    {
        proof { lemma_bit_test(self.bitmap@[page as int / 32], page % 32); }
        (self.bitmap[(page / 32) as usize] & (1u32 << (page % 32))) != 0
    }

    fn bitmap_set(&mut self, page: u32)
        requires
            old(self).bitmap@.len() == BITMAP_WORDS,
            page < MAX_PAGES,
        ensures
            final(self).bitmap@.len() == BITMAP_WORDS,
            final(self).view() == old(self).view().update(page as int, true),
            final(self).free_pages == old(self).free_pages,
            final(self).total_pages == old(self).total_pages,
    {
        let i = (page / 32) as usize;
        proof { lemma_view_set(self.bitmap@, i as int, page % 32); }
        let w = self.bitmap[i] | (1u32 << (page % 32));
        self.bitmap.set(i, w);
    }

    fn bitmap_clear(&mut self, page: u32)
        requires
            old(self).bitmap@.len() == BITMAP_WORDS,
            page < MAX_PAGES,
        ensures
            final(self).bitmap@.len() == BITMAP_WORDS,
            final(self).view() == old(self).view().update(page as int, false),
            final(self).free_pages == old(self).free_pages,
            final(self).total_pages == old(self).total_pages,
    {
        let i = (page / 32) as usize;
        proof { lemma_view_set(self.bitmap@, i as int, page % 32); }
        let w = self.bitmap[i] & !(1u32 << (page % 32));
        self.bitmap.set(i, w);
    }

    /// Mark page `p` free, keeping the counter.
    fn free_one(&mut self, p: u32)
        requires
            old(self).wf(),
            p < MAX_PAGES,
        ensures
            final(self).wf(),
            final(self).view() == old(self).view().update(p as int, false),
            final(self).total_pages == old(self).total_pages,
    {
        if self.bitmap_test(p) {
            proof {
                lemma_count_update(self.view(), p as int, false, MAX_PAGES as int);
                lemma_count_bound(self.view(), MAX_PAGES as int);
            }
            self.bitmap_clear(p);
            self.free_pages = self.free_pages + 1;
        } else {
            assert(self.view().update(p as int, false) =~= self.view());
        }
    }

    /// Mark page `p` used, keeping the counter.
    fn use_one(&mut self, p: u32)
        requires
            old(self).wf(),
            p < MAX_PAGES,
        ensures
            final(self).wf(),
            final(self).view() == old(self).view().update(p as int, true),
            final(self).total_pages == old(self).total_pages,
    {
        if !self.bitmap_test(p) {
            proof {
                lemma_count_update(self.view(), p as int, true, MAX_PAGES as int);
                lemma_count_bound(self.view().update(p as int, true), MAX_PAGES as int);
            }
            self.bitmap_set(p);
            self.free_pages = self.free_pages - 1;
        } else {
            assert(self.view().update(p as int, true) =~= self.view());
        }
    }

    /// Mark pages `first .. last` (clamped to the bitmap) with `used`.
    fn mark_pages(&mut self, first: u32, last: u32, used: bool)
        requires
            old(self).wf(),
        ensures
            final(self).wf(),
            final(self).total_pages == old(self).total_pages,
            forall|p: int| 0 <= p < MAX_PAGES ==> #[trigger] final(self).view()[p]
                == if first <= p < last { used } else { old(self).view()[p] },
    {
        if first >= MAX_PAGES {
            return;
        }
        let end = if last > MAX_PAGES { MAX_PAGES } else { last };
        let mut p = first;
        while p < end
            invariant
                self.wf(),
                self.total_pages == old(self).total_pages,
                first <= p,
                end <= MAX_PAGES,
                first < end ==> p <= end,
                first >= end ==> p == first,
                forall|q: int| 0 <= q < MAX_PAGES ==> #[trigger] self.view()[q]
                    == if first <= q < p { used } else { old(self).view()[q] },
            decreases end - p,
        {
            if used {
                self.use_one(p);
            } else {
                self.free_one(p);
            }
            p = p + 1;
        }
    }

    /// Reserve the pages touched by `[start, end)`: from the page holding
    /// `start` through the page holding `end - 1`.  An empty range changes
    /// nothing.
    pub fn reserve_range(&mut self, start: u32, end: u32)
        requires
            old(self).wf(),
            start < end ==> end <= u32::MAX - (PAGE_SIZE - 1),
        ensures
            final(self).wf(),
            final(self).total_pages == old(self).total_pages,
            forall|p: int| 0 <= p < MAX_PAGES ==> #[trigger] final(self).view()[p]
                == if start < end && start / PAGE_SIZE <= p < (end + PAGE_SIZE - 1) / (PAGE_SIZE as int) {
                    true
                } else {
                    old(self).view()[p]
                },
    {
        if end <= start {
            return;
        }
        let length = end - start;
        self.mark_region_used(start, length);
    }

    /// Mark used every page touched by `[base, base + length)`.
    fn mark_region_used(&mut self, base: u32, length: u32)
        requires
            old(self).wf(),
            base + length + PAGE_SIZE - 1 <= u32::MAX,
        ensures
            final(self).wf(),
            final(self).total_pages == old(self).total_pages,
            forall|p: int| 0 <= p < MAX_PAGES ==> #[trigger] final(self).view()[p]
                == if base / PAGE_SIZE <= p < (base + length + PAGE_SIZE - 1) / (PAGE_SIZE as int) {
                    true
                } else {
                    old(self).view()[p]
                },
    {
        let page_start = base / PAGE_SIZE;
        let page_end = (base + length + (PAGE_SIZE - 1)) / PAGE_SIZE;
        self.mark_pages(page_start, page_end, true);
    }

    /// Mark free every page wholly inside `[base, base + length)`.
    fn mark_region_free(&mut self, base: u32, length: u32)
        requires
            old(self).wf(),
            base + length <= u32::MAX,
        ensures
            final(self).wf(),
            final(self).total_pages == old(self).total_pages,
            forall|p: int| 0 <= p < MAX_PAGES ==> #[trigger] final(self).view()[p]
                == if base / PAGE_SIZE <= p < (base + length) / (PAGE_SIZE as int) {
                    false
                } else {
                    old(self).view()[p]
                },
    {
        let page_start = base / PAGE_SIZE;
        let page_end = (base + length) / PAGE_SIZE;
        self.mark_pages(page_start, page_end, false);
    }

    /// Allocate the lowest free page: mark it used and return its physical
    /// address.  Returns 0, changing nothing, when no page is free.
    pub fn alloc_page(&mut self) -> (r: u32)
        requires
            old(self).wf(),
        ensures
            final(self).wf(),
            final(self).total_pages == old(self).total_pages,
            match first_free_page(old(self).view(), MAX_PAGES as int) {
                Some(p) => r == p * PAGE_SIZE && final(self).view() == old(self).view().update(p, true),
                None => r == 0 && final(self).view() == old(self).view() && final(self).free_pages == old(self).free_pages,
            },
    {
        let mut i: usize = 0;
        while i < BITMAP_WORDS
            invariant
                self.wf(),
                *self == *old(self),
                i <= BITMAP_WORDS,
                first_free_page(self.view(), 32 * i) is None,
            decreases BITMAP_WORDS - i,
        {
            if self.bitmap[i] != 0xFFFF_FFFF {
                let mut bit: u32 = 0;
                while bit < 32
                    invariant
                        self.wf(),
                        *self == *old(self),
                        i < BITMAP_WORDS,
                        bit <= 32,
                        first_free_page(self.view(), 32 * i + bit) is None,
                    decreases 32 - bit,
                {
                    let page = (i as u32) * 32 + bit;
                    proof {
                        lemma_page_index(i as int, bit as int);
                        lemma_bit_test(self.bitmap@[i as int], bit);
                    }
                    if (self.bitmap[i] & (1u32 << bit)) == 0 {
                        proof {
                            assert(!self.view()[page as int]);
                            assert(first_free_page(self.view(), page + 1) == Some(page as int));
                            lemma_first_free_page_stable(self.view(), page + 1, MAX_PAGES as int);
                        }
                        self.use_one(page);
                        return page * PAGE_SIZE;
                    }
                    bit = bit + 1;
                }
            } else {
                proof { lemma_full_word_used(self.view(), self.bitmap@, i as int, 32); }
            }
            i = i + 1;
        }
        0
    }

    /// Return the page holding `addr` to the free pool.  Address 0 (the
    /// out-of-memory result) and addresses beyond the bitmap are ignored.
    pub fn free_page(&mut self, addr: u32)
        requires
            old(self).wf(),
        ensures
            final(self).wf(),
            final(self).total_pages == old(self).total_pages,
            addr == 0 || addr / PAGE_SIZE >= MAX_PAGES ==> final(self).view() == old(self).view()
                && final(self).free_pages == old(self).free_pages,
            addr != 0 && addr / PAGE_SIZE < MAX_PAGES ==> final(self).view() == old(self).view().update(
                (addr / PAGE_SIZE) as int,
                false,
            ),
    {
        if addr == 0 {
            return;
        }
        let page = addr / PAGE_SIZE;
        if page >= MAX_PAGES {
            return;
        }
        self.free_one(page);
    }

    /// Pages known to the allocator.
    pub fn get_total_pages(&self) -> (r: u32)
        ensures
            r == self.total_pages,
    {
        self.total_pages
    }

    /// Pages currently free.
    pub fn get_free_pages(&self) -> (r: u32)
        requires
            self.wf(),
        ensures
            r == count_free(self.view(), MAX_PAGES as int),
    {
        self.free_pages
    }
}

/// Index of the first free one of the first `n` pages.
pub open spec fn first_free_page(s: Seq<bool>, n: int) -> Option<int>
    decreases n,
{
    if n <= 0 {
        None
    } else {
        match first_free_page(s, n - 1) {
            Some(i) => Some(i),
            None => if !s[n - 1] { Some(n - 1) } else { None },
        }
    }
}

proof fn lemma_first_free_page_stable(s: Seq<bool>, a: int, b: int)
    requires
        0 <= a <= b,
        first_free_page(s, a) is Some,
    ensures
        first_free_page(s, b) == first_free_page(s, a),
    decreases b - a,
{
    if b > a {
        lemma_first_free_page_stable(s, a, b - 1);
    }
}

pub proof fn lemma_first_free_page_range(s: Seq<bool>, n: int)
    ensures
        first_free_page(s, n) matches Some(i) ==> 0 <= i < n && !s[i] && forall|q: int| 0 <= q < i ==> s[q],
        first_free_page(s, n) is None ==> forall|q: int| 0 <= q < n ==> s[q],
    decreases n,
{
    if n > 0 {
        lemma_first_free_page_range(s, n - 1);
    }
}

proof fn lemma_page_index(i: int, b: int)
    requires
        0 <= i,
        0 <= b < 32,
    ensures
        (32 * i + b) / 32 == i,
        (32 * i + b) % 32 == b,
{
    assert((32 * i + b) / 32 == i && (32 * i + b) % 32 == b) by (nonlinear_arith)
        requires
            0 <= i,
            0 <= b < 32,
    ;
}

/// Every page of a full word is used.
proof fn lemma_full_word_used(s: Seq<bool>, bm: Seq<u32>, i: int, k: int)
    requires
        bm.len() == BITMAP_WORDS,
        s == pages_view(bm),
        0 <= i < BITMAP_WORDS,
        bm[i] == 0xFFFF_FFFFu32,
        0 <= k <= 32,
        first_free_page(s, 32 * i) is None,
    ensures
        first_free_page(s, 32 * i + k) is None,
    decreases k,
{
    if k > 0 {
        lemma_full_word_used(s, bm, i, k - 1);
        lemma_page_index(i, k - 1);
        lemma_full_word((k - 1) as u32);
    }
}

/// Allocating a page and freeing it again gives back the flags as they
/// were.
pub proof fn lemma_alloc_then_free(s: Seq<bool>)
    requires
        s.len() == MAX_PAGES,
        first_free_page(s, MAX_PAGES as int) is Some,
    ensures
        ({
            let p = first_free_page(s, MAX_PAGES as int).unwrap();
            &&& 0 <= p < MAX_PAGES
            &&& !s[p]
            &&& s.update(p, true).update(p, false) == s
            &&& count_free(s.update(p, true), MAX_PAGES as int) == count_free(s, MAX_PAGES as int) - 1
        }),
{
    let p = first_free_page(s, MAX_PAGES as int).unwrap();
    lemma_first_free_page_range(s, MAX_PAGES as int);
    lemma_count_update(s, p, true, MAX_PAGES as int);
    assert(s.update(p, true).update(p, false) =~= s);
}

/// Pages an entry of the memory map frees: for available RAM below 4 GiB,
/// the pages wholly inside it, up to 512 MiB.
pub open spec fn entry_frees(e: MmapEntry, p: int) -> bool {
    let end = if e.base_low + e.length_low > MAX_PAGES * PAGE_SIZE {
        MAX_PAGES * PAGE_SIZE
    } else {
        e.base_low + e.length_low
    };
    e.entry_type == 1 && e.base_high == 0 && e.base_low < end && (e.base_low as int) / (PAGE_SIZE as int) <= p < end
        / (PAGE_SIZE as int)
}

/// Whether some entry of the memory map, from the one at `off` on, frees
/// page `p`.  Entries are read while a whole one fits.
pub open spec fn mmap_frees(m: Seq<u8>, off: int, p: int) -> bool
    decreases (if off < m.len() { m.len() - off } else { 0 }),
{
    if off < 0 || off + MMAP_ENTRY_LEN > m.len() {
        false
    } else {
        entry_frees(mmap_entry_at(m, off), p) || mmap_frees(m, off + le32(m, off) + 4, p)
    }
}

proof fn lemma_count_all_used(s: Seq<bool>, n: int)
    requires
        0 <= n <= s.len(),
        forall|k: int| 0 <= k < n ==> s[k],
    ensures
        count_free(s, n) == 0,
    decreases n,
{
    if n > 0 {
        lemma_count_all_used(s, n - 1);
    }
}

impl Pmm {
    /// Set up the allocator from the boot loader's raw memory map (empty
    /// when it gave none) and the end of the kernel image: every page
    /// starts reserved, available RAM is freed, then the first megabyte and
    /// the kernel image are reserved again.  The total counts every page
    /// the bitmap covers.
    pub fn init(mmap: &[u8], kernel_end: u32) -> (r: Pmm)
        requires
            KERNEL_START <= kernel_end <= u32::MAX - PAGE_SIZE,
            mmap@.len() <= u32::MAX,
        ensures
            r.wf(),
            r.total_pages == MAX_PAGES,
            forall|p: int| 0 <= p < MAX_PAGES ==> #[trigger] r.view()[p] == (p < (kernel_end + PAGE_SIZE - 1) / (
            PAGE_SIZE as int) || !mmap_frees(mmap@, 0, p)),
    {
        let mut bitmap: Vec<u32> = Vec::new();
        let mut i: usize = 0;
        while i < BITMAP_WORDS
            invariant
                i <= BITMAP_WORDS,
                bitmap@.len() == i,
                forall|k: int| 0 <= k < i ==> bitmap@[k] == 0xFFFF_FFFFu32,
            decreases BITMAP_WORDS - i,
        {
            bitmap.push(0xFFFF_FFFF);
            i = i + 1;
        }
        let mut pmm = Pmm { bitmap, total_pages: 0, free_pages: 0 };
        assert forall|p: int| 0 <= p < MAX_PAGES implies #[trigger] pmm.view()[p] by {
            lemma_full_word((p % 32) as u32);
        }
        proof { lemma_count_all_used(pmm.view(), MAX_PAGES as int); }
        let len = mmap.len() as u64;
        let mut off: u64 = 0;
        while off + MMAP_ENTRY_LEN as u64 <= len
            invariant
                pmm.wf(),
                len == mmap@.len(),
                len <= u32::MAX,
                off <= len + 0x1_0000_0004,
                forall|p: int| #![trigger mmap_frees(mmap@, 0, p)] 0 <= p < MAX_PAGES ==> mmap_frees(mmap@, 0, p) == (!pmm.view()[p]
                    || mmap_frees(mmap@, off as int, p)),
            decreases len + 0x1_0000_0004 - off,
        {
            let e = read_mmap_entry(mmap, off as usize);
            let ghost before = pmm.view();
            let ghost off0 = off as int;
            assert(forall|p: int| #![trigger mmap_frees(mmap@, 0, p)] 0 <= p < MAX_PAGES ==> mmap_frees(mmap@, 0, p) == (!before[p]
                || mmap_frees(mmap@, off0, p)));
            if e.entry_type == 1 && e.base_high == 0 {
                let base = e.base_low;
                let mut end: u64 = base as u64 + e.length_low as u64;
                if end > 0x2000_0000u64 {
                    end = 0x2000_0000u64;
                }
                if (base as u64) < end {
                    pmm.mark_region_free(base, (end - base as u64) as u32);
                }
            }
            off = off + e.size as u64 + 4;
            assert forall|p: int| #![trigger mmap_frees(mmap@, 0, p)] 0 <= p < MAX_PAGES implies mmap_frees(mmap@, 0, p) == (!pmm.view()[p]
                || mmap_frees(mmap@, off as int, p)) by {
                assert(mmap_frees(mmap@, off0, p) == (entry_frees(e, p) || mmap_frees(mmap@, off as int, p)));
                assert(pmm.view()[p] == (before[p] && !entry_frees(e, p)));
            }
        }
        pmm.total_pages = pmm.free_pages;
        pmm.mark_region_used(0, 0x100000);
        let kernel_size = kernel_end - KERNEL_START;
        pmm.mark_region_used(KERNEL_START, kernel_size);
        let mut total: u32 = pmm.free_pages;
        let mut i: usize = 0;
        while i < BITMAP_WORDS
            invariant
                pmm.wf(),
                i <= BITMAP_WORDS,
                total == pmm.free_pages + 32 * i - count_free(pmm.view(), 32 * i),
            decreases BITMAP_WORDS - i,
        {
            let word = pmm.bitmap[i];
            let mut bit: u32 = 0;
            while bit < 32
                invariant
                    pmm.wf(),
                    i < BITMAP_WORDS,
                    word == pmm.bitmap@[i as int],
                    bit <= 32,
                    total == pmm.free_pages + (32 * i + bit) - count_free(pmm.view(), 32 * i + bit),
                decreases 32 - bit,
            {
                proof {
                    lemma_page_index(i as int, bit as int);
                    lemma_bit_test(word, bit);
                    lemma_count_bound(pmm.view(), 32 * i + bit);
                    lemma_count_bound(pmm.view(), MAX_PAGES as int);
                }
                if word & (1u32 << bit) != 0 {
                    total = total + 1;
                }
                bit = bit + 1;
            }
            i = i + 1;
        }
        pmm.total_pages = total;
        pmm
    }
}

} // verus!
