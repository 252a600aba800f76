//! The slab strategy: eight size classes, each a free list of equal chunks.
//!
//! A class is backed by pages of 4096 bytes, each cut into `4096 / class size`
//! chunks. Allocation pops the most recently freed chunk of the smallest class
//! that fits; deallocation pushes the chunk back onto the list of the class that
//! the caller's layout selects.

use crate::layout::{
    in_range, lemma_multiple_of_divisor, lemma_multiples_apart, lemma_sum_of_multiples,
    ranges_disjoint, ranges_overlap, Layout,
};
use vstd::prelude::*;

verus! {

/// The chunk size of each class, ascending.
pub const SLAB_SIZES: [usize; 8] = [16, 32, 64, 128, 256, 512, 1024, 2048];

/// Number of size classes.
pub const SLAB_CLASSES: usize = 8;

/// The largest request that a class can serve.
pub const MAX_SLAB_SIZE: usize = 2048;

/// Bytes in one backing page.
pub const SLAB_PAGE_SIZE: usize = 4096;

/// Alignment of a backing page's first byte, and so of every chunk.
pub const SLAB_ALIGN: usize = 16;

/// Whether `size` is the chunk size of one of the classes.
pub open spec fn is_class_size(size: int) -> bool {
    size == 16 || size == 32 || size == 64 || size == 128 || size == 256 || size == 512 || size
        == 1024 || size == 2048
}

/// What makes 4096 bytes at `page` a backing page: a non-null address aligned to
/// `SLAB_ALIGN`, and an end that the address space can hold.
pub open spec fn page_valid(page: usize) -> bool {
    &&& page != 0
    &&& page % SLAB_ALIGN == 0
    &&& page + SLAB_PAGE_SIZE <= usize::MAX
}

/// Whether `addr` starts a chunk of `chunk_size` bytes in page `p` of `pages`.
pub open spec fn is_chunk_in(pages: Seq<usize>, chunk_size: int, p: int, addr: int) -> bool {
    &&& 0 <= p < pages.len()
    &&& pages[p] <= addr
    &&& addr + chunk_size <= pages[p] + SLAB_PAGE_SIZE
    &&& (addr - pages[p]) % chunk_size == 0
}

/// Whether `addr` starts a chunk of `chunk_size` bytes in one of `pages`.
pub open spec fn is_chunk_of(pages: Seq<usize>, chunk_size: int, addr: int) -> bool {
    exists|p: int| is_chunk_in(pages, chunk_size, p, addr)
}

/// Whether no two of `pages` share a byte.
pub open spec fn pages_disjoint(pages: Seq<usize>) -> bool {
    forall|p: int, q: int|
        0 <= p < q < pages.len() ==> ranges_disjoint(
            (#[trigger] pages[p]) as int,
            SLAB_PAGE_SIZE as int,
            (#[trigger] pages[q]) as int,
            SLAB_PAGE_SIZE as int,
        )
}

/// The chunks of the page at `page`, in address order.
pub open spec fn page_chunks(page: usize, chunk_size: usize) -> Seq<usize> {
    Seq::new(
        (SLAB_PAGE_SIZE as int / chunk_size as int) as nat,
        |k: int| (page + k * chunk_size) as usize,
    )
}

/// Two different chunks of one class, in pages that do not overlap, share no byte.
pub proof fn lemma_chunks_disjoint(pages: Seq<usize>, chunk_size: int, a: int, b: int)
    requires
        chunk_size > 0,
        pages_disjoint(pages),
        is_chunk_of(pages, chunk_size, a),
        is_chunk_of(pages, chunk_size, b),
        a != b,
    ensures
        ranges_disjoint(a, chunk_size, b, chunk_size),
{
    let p: int = choose|p: int| is_chunk_in(pages, chunk_size, p, a);
    let q: int = choose|q: int| is_chunk_in(pages, chunk_size, q, b);
    if p == q {
        if a < b {
            lemma_multiples_apart(a - pages[p], b - pages[p], chunk_size);
        } else {
            lemma_multiples_apart(b - pages[p], a - pages[p], chunk_size);
        }
    } else if p < q {
        assert(ranges_disjoint(
            pages[p] as int,
            SLAB_PAGE_SIZE as int,
            pages[q] as int,
            SLAB_PAGE_SIZE as int,
        ));
    } else {
        assert(ranges_disjoint(
            pages[q] as int,
            SLAB_PAGE_SIZE as int,
            pages[p] as int,
            SLAB_PAGE_SIZE as int,
        ));
    }
}

/// One size class: its free chunks, most recently freed last, and its pages.
pub struct SlabList {
    free_list: Vec<usize>,
    chunk_size: usize,
    chunks_per_slab: usize,
    pages: Vec<usize>,
}

impl SlabList {
    /// The free chunks; the last one is handed out next.
    pub closed spec fn free(&self) -> Seq<usize> {
        self.free_list@
    }

    /// The first byte of every backing page, oldest first.
    pub closed spec fn pages(&self) -> Seq<usize> {
        self.pages@
    }

    /// Bytes in each chunk.
    pub closed spec fn spec_chunk_size(&self) -> usize {
        self.chunk_size
    }

    /// Chunks in each page.
    pub closed spec fn spec_chunks_per_slab(&self) -> usize {
        self.chunks_per_slab
    }

    /// Whether `addr` starts one of the class's chunks, free or not.
    pub open spec fn is_chunk(&self, addr: int) -> bool {
        is_chunk_of(self.pages(), self.chunk_size() as int, addr)
    }

    /// Whether `addr` starts a chunk that is handed out.
    pub open spec fn is_live(&self, addr: usize) -> bool {
        self.is_chunk(addr as int) && !self.free().contains(addr)
    }

    /// Whether none of the pages shares a byte with `[base, base + len)`.
    pub open spec fn clear_of(&self, base: int, len: int) -> bool {
        forall|p: int|
            0 <= p < self.pages().len() ==> ranges_disjoint(
                (#[trigger] self.pages()[p]) as int,
                SLAB_PAGE_SIZE as int,
                base,
                len,
            )
    }

    /// The class invariant: the pages are valid and share no byte; every free
    /// entry starts a chunk of one of them; and no chunk is listed twice.
    pub open spec fn wf(&self) -> bool {
        &&& is_class_size(self.chunk_size() as int)
        &&& self.chunks_per_slab() == SLAB_PAGE_SIZE / self.chunk_size()
        &&& forall|p: int| 0 <= p < self.pages().len() ==> page_valid(#[trigger] self.pages()[p])
        &&& pages_disjoint(self.pages())
        &&& forall|i: int|
            0 <= i < self.free().len() ==> self.is_chunk((#[trigger] self.free()[i]) as int)
        &&& self.free().no_duplicates()
    }

    /// The class of chunk size `SLAB_SIZES[idx]`, without pages.
    pub fn new(idx: usize) -> (r: SlabList)
        requires
            idx < SLAB_CLASSES,
        ensures
            r.wf(),
            r.chunk_size() == SLAB_SIZES[idx as int],
            r.free().len() == 0,
            r.pages().len() == 0,
    {
        let chunk_size: usize = SLAB_SIZES[idx];
        let chunks_per_slab: usize = SLAB_PAGE_SIZE / chunk_size;
        SlabList { free_list: Vec::new(), chunk_size, chunks_per_slab, pages: Vec::new() }
    }

    /// Bytes in each chunk.
    #[verifier::when_used_as_spec(spec_chunk_size)]
    pub fn chunk_size(&self) -> (r: usize)
        ensures
            r == self.spec_chunk_size(),
    {
        self.chunk_size
    }

    /// Chunks in each page.
    #[verifier::when_used_as_spec(spec_chunks_per_slab)]
    pub fn chunks_per_slab(&self) -> (r: usize)
        ensures
            r == self.spec_chunks_per_slab(),
    {
        self.chunks_per_slab
    }

    /// Number of free chunks.
    pub fn free_count(&self) -> (r: usize)
        ensures
            r == self.free().len(),
    {
        self.free_list.len()
    }

    /// Number of backing pages.
    pub fn page_count(&self) -> (r: usize)
        ensures
            r == self.pages().len(),
    {
        self.pages.len()
    }

    /// Takes the most recently freed chunk off the list.
    pub fn pop(&mut self) -> (r: Option<usize>)
        requires
            old(self).wf(),
        ensures
            final(self).wf(),
            final(self).pages() == old(self).pages(),
            final(self).chunk_size() == old(self).chunk_size(),
            r.is_some() <==> old(self).free().len() > 0,
            r matches Some(addr) ==> {
                &&& addr == old(self).free().last()
                &&& final(self).free() == old(self).free().drop_last()
                &&& !old(self).is_live(addr)
                &&& final(self).is_live(addr)
            },
            r.is_none() ==> final(self).free() == old(self).free(),
    {
        let r: Option<usize> = self.free_list.pop();
        proof {
            if r.is_some() {
                let n: int = old(self).free().len() - 1;
                assert(old(self).free()[n] == r.unwrap());
                assert forall|i: int| 0 <= i < self.free().len() implies self.is_chunk(
                    (#[trigger] self.free()[i]) as int,
                ) by {
                    assert(self.free()[i] == old(self).free()[i]);
                }
                assert(!self.free().contains(r.unwrap())) by {
                    if self.free().contains(r.unwrap()) {
                        let i: int = choose|i: int|
                            0 <= i < self.free().len() && self.free()[i] == r.unwrap();
                        assert(old(self).free()[i] == old(self).free()[n]);
                    }
                }
            }
        }
        r
    }

    /// Puts the live chunk at `ptr` back on the list.
    pub fn push(&mut self, ptr: usize)
        requires
            old(self).wf(),
            old(self).is_live(ptr),
        ensures
            final(self).wf(),
            final(self).pages() == old(self).pages(),
            final(self).chunk_size() == old(self).chunk_size(),
            final(self).free() == old(self).free().push(ptr),
            !final(self).is_live(ptr),
    {
        self.free_list.push(ptr);
        proof {
            let n: int = old(self).free().len() as int;
            assert(self.free()[n] == ptr);
            assert forall|i: int| 0 <= i < self.free().len() implies self.is_chunk(
                (#[trigger] self.free()[i]) as int,
            ) by {
                if i < n {
                    assert(self.free()[i] == old(self).free()[i]);
                }
            }
        }
    }

    /// Adds the page at `page` and lists each of its chunks as free, in address
    /// order, so that the chunk at the highest address is handed out first.
    pub fn add_page(&mut self, page: usize)
        requires
            old(self).wf(),
            page_valid(page),
            old(self).clear_of(page as int, SLAB_PAGE_SIZE as int),
        ensures
            final(self).wf(),
            final(self).pages() == old(self).pages().push(page),
            final(self).chunk_size() == old(self).chunk_size(),
            final(self).free() == old(self).free() + page_chunks(page, old(self).chunk_size()),
            forall|c: usize| final(self).is_live(c) == old(self).is_live(c),
    {
        self.pages.push(page);
        let ghost last: int = old(self).pages().len() as int;
        let ghost cs: int = self.chunk_size as int;
        proof {
            assert(self.pages()[last] == page);
            assert forall|p: int| 0 <= p < self.pages().len() implies page_valid(
                #[trigger] self.pages()[p],
            ) by {
                if p < last {
                    assert(self.pages()[p] == old(self).pages()[p]);
                }
            }
            assert forall|p: int, q: int| 0 <= p < q < self.pages().len() implies ranges_disjoint(
                (#[trigger] self.pages()[p]) as int,
                SLAB_PAGE_SIZE as int,
                (#[trigger] self.pages()[q]) as int,
                SLAB_PAGE_SIZE as int,
            ) by {
                assert(self.pages()[p] == old(self).pages()[p]);
                if q < last {
                    assert(self.pages()[q] == old(self).pages()[q]);
                }
            }
            assert forall|i: int| 0 <= i < self.free().len() implies self.is_chunk(
                (#[trigger] self.free()[i]) as int,
            ) by {
                lemma_chunk_survives(old(self).pages(), page, cs, self.free()[i] as int);
            }
        }
        let mut i: usize = 0;
        while i < self.chunks_per_slab
            invariant
                self.wf(),
                page_valid(page),
                old(self).wf(),
                old(self).clear_of(page as int, SLAB_PAGE_SIZE as int),
                last == old(self).pages().len(),
                cs == self.chunk_size(),
                self.pages() == old(self).pages().push(page),
                self.chunk_size() == old(self).chunk_size(),
                self.chunks_per_slab() == old(self).chunks_per_slab(),
                0 <= i <= self.chunks_per_slab(),
                self.free() == old(self).free() + Seq::new(
                    i as nat,
                    |k: int| (page + k * cs) as usize,
                ),
            decreases self.chunks_per_slab() - i,
        {
            proof {
                lemma_chunk_offset(i as int, cs);
            }
            let chunk: usize = page + i * self.chunk_size;
            let ghost before: Seq<usize> = self.free();
            self.free_list.push(chunk);
            proof {
                assert(self.pages()[last] == page);
                assert(is_chunk_in(self.pages(), cs, last, chunk as int));
                assert forall|j: int| 0 <= j < self.free().len() implies self.is_chunk(
                    (#[trigger] self.free()[j]) as int,
                ) by {
                    if j < before.len() {
                        assert(self.free()[j] == before[j]);
                    }
                }
                assert forall|j: int| 0 <= j < before.len() implies before[j] != chunk by {
                    if j < old(self).free().len() {
                        assert(before[j] == old(self).free()[j]);
                        lemma_chunk_outside(old(self).pages(), page, cs, before[j] as int);
                    } else {
                        let k: int = j - old(self).free().len();
                        lemma_chunk_offset(k, cs);
                        assert(before[j] == (page + k * cs) as usize);
                        assert(k * cs != i * cs) by (nonlinear_arith)
                            requires
                                k != i,
                                cs > 0,
                        ;
                    }
                }
                assert(self.free() =~= old(self).free() + Seq::new(
                    (i + 1) as nat,
                    |k: int| (page + k * cs) as usize,
                ));
            }
            i += 1;
        }
        proof {
            assert(self.free() =~= old(self).free() + page_chunks(page, old(self).chunk_size()));
            assert forall|c: usize| self.is_live(c) == old(self).is_live(c) by {
                let n: int = old(self).free().len() as int;
                if old(self).is_chunk(c as int) {
                    lemma_chunk_survives(old(self).pages(), page, cs, c as int);
                    lemma_chunk_outside(old(self).pages(), page, cs, c as int);
                    if old(self).free().contains(c) {
                        let j: int = choose|j: int| 0 <= j < n && old(self).free()[j] == c;
                        assert(self.free()[j] == c);
                    }
                    if self.free().contains(c) {
                        let j: int = choose|j: int| 0 <= j < self.free().len()
                            && self.free()[j] == c;
                        if j >= n {
                            lemma_chunk_offset(j - n, cs);
                        }
                    }
                } else if self.is_chunk(c as int) {
                    let p: int = choose|p: int| is_chunk_in(self.pages(), cs, p, c as int);
                    if p < last {
                        assert(self.pages()[p] == old(self).pages()[p]);
                        assert(is_chunk_in(old(self).pages(), cs, p, c as int));
                    }
                    let k: int = (c - page) / cs;
                    vstd::arithmetic::div_mod::lemma_fundamental_div_mod(c - page, cs);
                    assert(0 <= k < self.chunks_per_slab()) by (nonlinear_arith)
                        requires
                            cs > 0,
                            c - page == cs * k,
                            0 <= c - page,
                            c - page + cs <= 4096,
                            self.chunks_per_slab() == 4096int / cs,
                            is_class_size(cs),
                    ;
                    assert(k * cs == cs * k) by (nonlinear_arith);
                    assert(page_chunks(page, old(self).chunk_size())[k] == c);
                    assert(self.free()[n + k] == c);
                }
            }
        }
    }

    /// Tests whether `ptr` starts a chunk that is handed out.
    pub fn is_allocated(&self, ptr: usize) -> (r: bool)
        requires
            self.wf(),
        ensures
            r == self.is_live(ptr),
    {
        let p: usize = match self.find_page(ptr) {
            Some(p) => p,
            None => {
                return false;
            },
        };
        let page: usize = self.pages[p];
        let off: usize = ptr - page;
        if off % self.chunk_size != 0 {
            proof {
                assert forall|q: int| !is_chunk_in(
                    self.pages(),
                    self.chunk_size() as int,
                    q,
                    ptr as int,
                ) by {
                    if 0 <= q < self.pages().len() && q != p {
                        if q < p {
                            assert(ranges_disjoint(
                                self.pages()[q] as int,
                                SLAB_PAGE_SIZE as int,
                                self.pages()[p as int] as int,
                                SLAB_PAGE_SIZE as int,
                            ));
                        } else {
                            assert(ranges_disjoint(
                                self.pages()[p as int] as int,
                                SLAB_PAGE_SIZE as int,
                                self.pages()[q] as int,
                                SLAB_PAGE_SIZE as int,
                            ));
                        }
                    }
                }
            }
            return false;
        }
        proof {
            lemma_aligned_offset_fits(off as int, self.chunk_size() as int);
            assert(is_chunk_in(self.pages(), self.chunk_size() as int, p as int, ptr as int));
        }
        let mut i: usize = 0;
        while i < self.free_list.len()
            invariant
                0 <= i <= self.free_list.len(),
                forall|j: int| 0 <= j < i ==> self.free()[j] != ptr,
            decreases self.free_list.len() - i,
        {
            if self.free_list[i] == ptr {
                return false;
            }
            i += 1;
        }
        true
    }

    /// Finds the page that holds the byte at `addr`.
    pub fn find_page(&self, addr: usize) -> (r: Option<usize>)
        requires
            self.wf(),
        ensures
            r matches Some(p) ==> p < self.pages().len() && in_range(
                addr as int,
                self.pages()[p as int] as int,
                SLAB_PAGE_SIZE as int,
            ),
            r.is_none() ==> forall|q: int|
                0 <= q < self.pages().len() ==> !in_range(
                    addr as int,
                    (#[trigger] self.pages()[q]) as int,
                    SLAB_PAGE_SIZE as int,
                ),
    {
        let mut p: usize = 0;
        while p < self.pages.len()
            invariant
                self.wf(),
                0 <= p <= self.pages.len(),
                forall|q: int|
                    0 <= q < p ==> !in_range(
                        addr as int,
                        (#[trigger] self.pages()[q]) as int,
                        SLAB_PAGE_SIZE as int,
                    ),
            decreases self.pages.len() - p,
        {
            let page: usize = self.pages[p];
            if page <= addr && addr - page < SLAB_PAGE_SIZE {
                return Some(p);
            }
            p += 1;
        }
        None
    }

    /// Tests whether any page shares a byte with `[base, base + len)`.
    pub fn overlaps(&self, base: usize, len: usize) -> (r: bool)
        requires
            self.wf(),
            base + len <= usize::MAX,
        ensures
            r == !self.clear_of(base as int, len as int),
    {
        let mut p: usize = 0;
        while p < self.pages.len()
            invariant
                self.wf(),
                base + len <= usize::MAX,
                0 <= p <= self.pages.len(),
                forall|q: int|
                    0 <= q < p ==> ranges_disjoint(
                        (#[trigger] self.pages()[q]) as int,
                        SLAB_PAGE_SIZE as int,
                        base as int,
                        len as int,
                    ),
            decreases self.pages.len() - p,
        {
            if ranges_overlap(self.pages[p], SLAB_PAGE_SIZE, base, len) {
                return true;
            }
            p += 1;
        }
        false
    }
}

/// Chunk `k` of a page starts at a multiple of the chunk size and ends inside
/// the page.
pub proof fn lemma_chunk_offset(k: int, chunk_size: int)
    requires
        is_class_size(chunk_size),
        0 <= k < SLAB_PAGE_SIZE as int / chunk_size,
    ensures
        0 <= k * chunk_size,
        k * chunk_size + chunk_size <= SLAB_PAGE_SIZE,
        (k * chunk_size) % chunk_size == 0,
{
    lemma_page_is_whole(chunk_size);
    let n: int = SLAB_PAGE_SIZE as int / chunk_size;
    assert(k * chunk_size + chunk_size <= n * chunk_size) by (nonlinear_arith)
        requires
            0 <= k < n,
            chunk_size > 0,
    ;
    assert(0 <= k * chunk_size) by (nonlinear_arith)
        requires
            0 <= k,
            chunk_size > 0,
    ;
    vstd::arithmetic::div_mod::lemma_mod_multiples_basic(k, chunk_size);
}

/// The chunks of a page fill it.
pub proof fn lemma_page_is_whole(chunk_size: int)
    requires
        is_class_size(chunk_size),
    ensures
        (SLAB_PAGE_SIZE as int / chunk_size) * chunk_size == SLAB_PAGE_SIZE,
        SLAB_PAGE_SIZE as int / chunk_size >= 2,
{
    if chunk_size == 16 {
        assert(4096int / 16int == 256);
    } else if chunk_size == 32 {
        assert(4096int / 32int == 128);
    } else if chunk_size == 64 {
        assert(4096int / 64int == 64);
    } else if chunk_size == 128 {
        assert(4096int / 128int == 32);
    } else if chunk_size == 256 {
        assert(4096int / 256int == 16);
    } else if chunk_size == 512 {
        assert(4096int / 512int == 8);
    } else if chunk_size == 1024 {
        assert(4096int / 1024int == 4);
    } else {
        assert(chunk_size == 2048);
        assert(4096int / 2048int == 2);
    }
}

/// A chunk of `pages` is still a chunk once another page is added.
pub proof fn lemma_chunk_survives(pages: Seq<usize>, page: usize, chunk_size: int, addr: int)
    requires
        is_chunk_of(pages, chunk_size, addr),
    ensures
        is_chunk_of(pages.push(page), chunk_size, addr),
{
    let p: int = choose|p: int| is_chunk_in(pages, chunk_size, p, addr);
    assert(pages.push(page)[p] == pages[p]);
    assert(is_chunk_in(pages.push(page), chunk_size, p, addr));
}

/// A chunk of `pages` lies outside a page that shares no byte with them.
pub proof fn lemma_chunk_outside(pages: Seq<usize>, page: usize, chunk_size: int, addr: int)
    requires
        chunk_size > 0,
        is_chunk_of(pages, chunk_size, addr),
        forall|p: int|
            0 <= p < pages.len() ==> ranges_disjoint(
                (#[trigger] pages[p]) as int,
                SLAB_PAGE_SIZE as int,
                page as int,
                SLAB_PAGE_SIZE as int,
            ),
    ensures
        !in_range(addr, page as int, SLAB_PAGE_SIZE as int),
{
    let p: int = choose|p: int| is_chunk_in(pages, chunk_size, p, addr);
    assert(ranges_disjoint(
        pages[p] as int,
        SLAB_PAGE_SIZE as int,
        page as int,
        SLAB_PAGE_SIZE as int,
    ));
}

/// A chunk that starts at a multiple of its size below 4096 ends by 4096.
pub proof fn lemma_aligned_offset_fits(off: int, chunk_size: int)
    requires
        is_class_size(chunk_size),
        0 <= off < SLAB_PAGE_SIZE,
        off % chunk_size == 0,
    ensures
        off + chunk_size <= SLAB_PAGE_SIZE,
{
    if chunk_size == 16 {
    } else if chunk_size == 32 {
    } else if chunk_size == 64 {
    } else if chunk_size == 128 {
    } else if chunk_size == 256 {
    } else if chunk_size == 512 {
    } else if chunk_size == 1024 {
    } else {
    }
    assert(4096int % chunk_size == 0);
    lemma_multiples_apart(off, 4096, chunk_size);
}

/// The class that serves a request of `size` bytes: the smallest one whose
/// chunks are at least that large, if there is one.
pub open spec fn class_of(size: usize) -> Option<usize> {
    if size <= 16 {
        Some(0usize)
    } else if size <= 32 {
        Some(1usize)
    } else if size <= 64 {
        Some(2usize)
    } else if size <= 128 {
        Some(3usize)
    } else if size <= 256 {
        Some(4usize)
    } else if size <= 512 {
        Some(5usize)
    } else if size <= 1024 {
        Some(6usize)
    } else if size <= 2048 {
        Some(7usize)
    } else {
        None
    }
}

/// Whether a request of `size` bytes is served by class `idx`.
pub open spec fn selects(size: usize, idx: int) -> bool {
    class_of(size) matches Some(i) && i == idx
}

/// The eight size classes; each is set up when it is first needed.
pub struct SlabAllocator {
    slabs: Vec<Option<SlabList>>,
}

impl SlabAllocator {
    /// The classes by index; `None` where a class was never needed.
    pub closed spec fn classes(&self) -> Seq<Option<SlabList>> {
        self.slabs@
    }

    /// Whether class `idx` has been set up.
    pub open spec fn published(&self, idx: int) -> bool {
        0 <= idx < self.classes().len() && self.classes()[idx].is_some()
    }

    /// The free chunks of class `idx`; the last one is handed out next.
    pub open spec fn free_of(&self, idx: int) -> Seq<usize> {
        if self.published(idx) {
            self.classes()[idx].unwrap().free()
        } else {
            Seq::empty()
        }
    }

    /// The backing pages of class `idx`.
    pub open spec fn pages_of(&self, idx: int) -> Seq<usize> {
        if self.published(idx) {
            self.classes()[idx].unwrap().pages()
        } else {
            Seq::empty()
        }
    }

    /// Whether `addr` starts a chunk of class `idx`, free or not.
    pub open spec fn is_chunk(&self, idx: int, addr: int) -> bool {
        &&& 0 <= idx < SLAB_CLASSES
        &&& is_chunk_of(self.pages_of(idx), SLAB_SIZES[idx] as int, addr)
    }

    /// Whether `addr` starts a chunk of class `idx` that is handed out.
    pub open spec fn is_live(&self, idx: int, addr: usize) -> bool {
        self.is_chunk(idx, addr as int) && !self.free_of(idx).contains(addr)
    }

    /// Whether the byte at `addr` belongs to a chunk that is handed out.
    pub open spec fn in_use(&self, addr: int) -> bool {
        exists|idx: int, c: usize|
            #[trigger] self.is_live(idx, c) && in_range(addr, c as int, SLAB_SIZES[idx] as int)
    }

    /// Whether the byte at `addr` lies in a page of some class.
    pub open spec fn holds(&self, addr: int) -> bool {
        exists|idx: int, p: int|
            0 <= idx < SLAB_CLASSES && 0 <= p < self.pages_of(idx).len() && in_range(
                addr,
                (#[trigger] self.pages_of(idx)[p]) as int,
                SLAB_PAGE_SIZE as int,
            )
    }

    /// Whether no page of any class shares a byte with `[base, base + len)`.
    pub open spec fn clear_of(&self, base: int, len: int) -> bool {
        forall|idx: int, p: int|
            0 <= idx < SLAB_CLASSES && 0 <= p < self.pages_of(idx).len() ==> ranges_disjoint(
                (#[trigger] self.pages_of(idx)[p]) as int,
                SLAB_PAGE_SIZE as int,
                base,
                len,
            )
    }

    /// The invariant: there are eight classes; each one that is set up is well
    /// formed and has the chunk size of its index; and pages of different
    /// classes share no byte. With each class's own invariant this keeps every
    /// free-list entry inside the pages of its class.
    pub open spec fn wf(&self) -> bool {
        &&& self.classes().len() == SLAB_CLASSES
        &&& forall|idx: int|
            0 <= idx < SLAB_CLASSES ==> ((#[trigger] self.classes()[idx]) matches Some(list)
                ==> list.wf() && list.chunk_size() == SLAB_SIZES[idx])
        &&& forall|i: int, j: int, p: int, q: int|
            0 <= i < SLAB_CLASSES && 0 <= j < SLAB_CLASSES && i != j && 0 <= p < self.pages_of(
                i,
            ).len() && 0 <= q < self.pages_of(j).len() ==> ranges_disjoint(
                (#[trigger] self.pages_of(i)[p]) as int,
                SLAB_PAGE_SIZE as int,
                (#[trigger] self.pages_of(j)[q]) as int,
                SLAB_PAGE_SIZE as int,
            )
    }

    /// What handing out the chunk of class `idx` at `addr` does to the bytes:
    /// those of the chunk, none of which was in use, are in use afterwards, and
    /// no other byte changes.
    pub open spec fn chunk_taken(
        pre: &SlabAllocator,
        post: &SlabAllocator,
        idx: int,
        addr: usize,
    ) -> bool {
        &&& forall|a: int| in_range(a, addr as int, SLAB_SIZES[idx] as int) ==> !pre.in_use(a)
        &&& forall|a: int|
            post.in_use(a) == (pre.in_use(a) || in_range(a, addr as int, SLAB_SIZES[idx] as int))
    }

    /// Whether a page reserved at `page` can back a class: it is a valid page
    /// that shares no byte with the pages already held.
    pub open spec fn accepts(&self, page: usize) -> bool {
        page_valid(page) && self.clear_of(page as int, SLAB_PAGE_SIZE as int)
    }

    /// An allocator in which no class is set up.
    pub fn new() -> (r: SlabAllocator)
        ensures
            r.wf(),
            forall|idx: int| 0 <= idx < SLAB_CLASSES ==> !r.published(idx),
    {
        let mut slabs: Vec<Option<SlabList>> = Vec::new();
        let mut i: usize = 0;
        while i < SLAB_CLASSES
            invariant
                0 <= i <= SLAB_CLASSES,
                slabs@.len() == i,
                forall|k: int| 0 <= k < i ==> (#[trigger] slabs@[k]).is_none(),
            decreases SLAB_CLASSES - i,
        {
            slabs.push(None);
            i += 1;
        }
        SlabAllocator { slabs }
    }

    /// The index of the smallest class whose chunks hold `size` bytes; `None`
    /// where `size` is above the largest class.
    pub fn size_to_index(size: usize) -> (r: Option<usize>)
        ensures
            r == class_of(size),
            r.is_none() <==> size > MAX_SLAB_SIZE,
            r matches Some(idx) ==> {
                &&& idx < SLAB_CLASSES
                &&& SLAB_SIZES[idx as int] >= size
                &&& forall|j: int| 0 <= j < idx ==> SLAB_SIZES[j] < size
            },
    {
        let mut i: usize = 0;
        while i < SLAB_CLASSES
            invariant
                0 <= i <= SLAB_CLASSES,
                forall|j: int| 0 <= j < i ==> SLAB_SIZES[j] < size,
            decreases SLAB_CLASSES - i,
        {
            if SLAB_SIZES[i] >= size {
                proof {
                    Self::lemma_class_sizes();
                    if i > 0 {
                        assert(SLAB_SIZES[i - 1] < size);
                    }
                }
                return Some(i);
            }
            i += 1;
        }
        proof {
            Self::lemma_class_sizes();
            assert(SLAB_SIZES[7] < size);
        }
        None
    }

    /// The table of class sizes, entry by entry.
    pub proof fn lemma_class_sizes()
        ensures
            SLAB_SIZES[0] == 16,
            SLAB_SIZES[1] == 32,
            SLAB_SIZES[2] == 64,
            SLAB_SIZES[3] == 128,
            SLAB_SIZES[4] == 256,
            SLAB_SIZES[5] == 512,
            SLAB_SIZES[6] == 1024,
            SLAB_SIZES[7] == 2048,
            forall|idx: int| 0 <= idx < SLAB_CLASSES
                ==> is_class_size(#[trigger] SLAB_SIZES[idx] as int),
    {
    }

    /// Sets class `idx` up unless it already is. Its chunks and pages, and all
    /// other classes, stay as they are.
    pub fn get_or_create_slab_list(&mut self, idx: usize)
        requires
            old(self).wf(),
            idx < SLAB_CLASSES,
        ensures
            final(self).wf(),
            final(self).published(idx as int),
            forall|j: int|
                0 <= j < SLAB_CLASSES && j != idx
                    ==> final(self).classes()[j] == old(self).classes()[j],
            old(self).published(idx as int) ==> final(self).classes() == old(self).classes(),
            forall|j: int|
                0 <= j < SLAB_CLASSES ==> final(self).free_of(j) == old(self).free_of(j)
                    && final(self).pages_of(j) == old(self).pages_of(j),
    {
        if self.slabs[idx].is_none() {
            let list: SlabList = SlabList::new(idx);
            self.slabs[idx] = Some(list);
            proof {
                assert(self.free_of(idx as int) =~= old(self).free_of(idx as int));
                assert(self.pages_of(idx as int) =~= old(self).pages_of(idx as int));
                assert forall|j: int| 0 <= j < SLAB_CLASSES
                    implies self.free_of(j) == old(self).free_of(j)
                    && self.pages_of(j) == old(self).pages_of(j) by {
                    if j != idx {
                        assert(self.classes()[j] == old(self).classes()[j]);
                    }
                }
            }
        } else {
            proof {
                assert(self.classes() =~= old(self).classes());
            }
        }
    }

    /// Hands out the most recently freed chunk of the smallest class that holds
    /// `layout.size()` bytes. `None` where the size is above the largest class,
    /// which is a refusal, or where the class has no free chunk, which calls for
    /// a new page.
    pub fn allocate(&mut self, layout: Layout) -> (r: Option<usize>)
        requires
            old(self).wf(),
            layout.wf(),
        ensures
            final(self).wf(),
            class_of(layout.size()).is_none() ==> r.is_none()
                && final(self).classes() == old(self).classes(),
            class_of(layout.size()) matches Some(idx) ==> {
                &&& final(self).published(idx as int)
                &&& r.is_some() <==> old(self).free_of(idx as int).len() > 0
                &&& r matches Some(addr) ==> {
                    &&& addr == old(self).free_of(idx as int).last()
                    &&& final(self).free_of(idx as int) == old(self).free_of(
                        idx as int,
                    ).drop_last()
                    &&& !old(self).is_live(idx as int, addr)
                    &&& final(self).is_live(idx as int, addr)
                    &&& addr % SLAB_ALIGN == 0
                }
                &&& r.is_none() ==> final(self).free_of(idx as int) == old(self).free_of(
                    idx as int,
                )
                &&& forall|j: int|
                    0 <= j < SLAB_CLASSES && j != idx
                        ==> final(self).classes()[j] == old(self).classes()[j]
            },
            forall|j: int|
                0 <= j < SLAB_CLASSES ==> final(self).pages_of(j) == old(self).pages_of(j),
            forall|j: int, c: usize|
                r != Some(c) || class_of(layout.size()) != Some(j as usize)
                    ==> final(self).is_live(j, c) == old(self).is_live(j, c),
    {
        let size: usize = layout.size();
        if size > MAX_SLAB_SIZE {
            return None;
        }
        let idx: usize = match Self::size_to_index(size) {
            Some(i) => i,
            None => {
                return None;
            },
        };
        self.get_or_create_slab_list(idx);
        let ghost mid: SlabAllocator = *self;
        let r: Option<usize> = match &mut self.slabs[idx] {
            Some(list) => list.pop(),
            None => None,
        };
        proof {
            let i: int = idx as int;
            assert(mid.classes()[i].is_some());
            assert(self.classes()[i].is_some());
            assert forall|j: int| 0 <= j < SLAB_CLASSES
                implies self.pages_of(j) == old(self).pages_of(j) by {
                if j != i {
                    assert(self.classes()[j] == mid.classes()[j]);
                }
            }
            assert forall|j: int| 0 <= j < SLAB_CLASSES && j != i
                implies self.free_of(j) == old(self).free_of(j) by {
                assert(self.classes()[j] == mid.classes()[j]);
            }
            assert forall|j: int, c: usize|
                r != Some(c) || !selects(layout.size(), j)
                    implies self.is_live(j, c) == old(self).is_live(j, c) by {
                if j == i && 0 <= j < SLAB_CLASSES {
                    lemma_contains_after_drop(old(self).free_of(i), self.free_of(i), r, c);
                }
            }
            if r.is_some() {
                Self::lemma_class_sizes();
                self.lemma_chunk_aligned(i, r.unwrap() as int);
                Self::lemma_in_use_after_take(old(self), self, i, r.unwrap());
            } else {
                Self::lemma_in_use_same(old(self), self);
            }
        }
        r
    }

    /// Two different chunks share no byte, whatever their classes.
    pub proof fn lemma_chunks_apart(&self, i: int, c1: int, j: int, c2: int)
        requires
            self.wf(),
            self.is_chunk(i, c1),
            self.is_chunk(j, c2),
            i != j || c1 != c2,
        ensures
            ranges_disjoint(c1, SLAB_SIZES[i] as int, c2, SLAB_SIZES[j] as int),
    {
        Self::lemma_class_sizes();
        if i == j {
            assert(self.classes()[i].unwrap().wf()) by {
                if !self.published(i) {
                    assert(self.pages_of(i).len() == 0);
                }
            }
            lemma_chunks_disjoint(self.pages_of(i), SLAB_SIZES[i] as int, c1, c2);
        } else {
            let p: int = choose|p: int| is_chunk_in(self.pages_of(i), SLAB_SIZES[i] as int, p, c1);
            let q: int = choose|q: int| is_chunk_in(self.pages_of(j), SLAB_SIZES[j] as int, q, c2);
            assert(ranges_disjoint(
                self.pages_of(i)[p] as int,
                SLAB_PAGE_SIZE as int,
                self.pages_of(j)[q] as int,
                SLAB_PAGE_SIZE as int,
            ));
        }
    }

    /// Where no chunk changed between free and handed out, no byte did.
    pub proof fn lemma_in_use_same(pre: &SlabAllocator, post: &SlabAllocator)
        requires
            forall|j: int, c: usize| post.is_live(j, c) == pre.is_live(j, c),
        ensures
            forall|a: int| post.in_use(a) == pre.in_use(a),
    {
        assert forall|a: int| post.in_use(a) == pre.in_use(a) by {
            if pre.in_use(a) {
                let (j, c) = choose|j: int, c: usize|
                    #[trigger] pre.is_live(j, c) && in_range(a, c as int, SLAB_SIZES[j] as int);
                assert(post.is_live(j, c));
            }
            if post.in_use(a) {
                let (j, c) = choose|j: int, c: usize|
                    #[trigger] post.is_live(j, c) && in_range(a, c as int, SLAB_SIZES[j] as int);
                assert(pre.is_live(j, c));
            }
        }
    }

    /// Handing out the chunk at `addr` of class `idx` puts its bytes, none of
    /// which was in use, into use, and changes no other byte.
    pub proof fn lemma_in_use_after_take(
        pre: &SlabAllocator,
        post: &SlabAllocator,
        idx: int,
        addr: usize,
    )
        requires
            pre.wf(),
            pre.is_chunk(idx, addr as int),
            !pre.is_live(idx, addr),
            post.is_live(idx, addr),
            forall|j: int, c: usize|
                c != addr || j != idx ==> post.is_live(j, c) == pre.is_live(j, c),
        ensures
            Self::chunk_taken(pre, post, idx, addr),
    {
        assert forall|a: int|
            in_range(a, addr as int, SLAB_SIZES[idx] as int) implies !pre.in_use(a) by {
            if pre.in_use(a) {
                let (j, c) = choose|j: int, c: usize|
                    #[trigger] pre.is_live(j, c) && in_range(a, c as int, SLAB_SIZES[j] as int);
                pre.lemma_chunks_apart(idx, addr as int, j, c as int);
            }
        }
        assert forall|a: int|
            post.in_use(a) == (pre.in_use(a) || in_range(
                a,
                addr as int,
                SLAB_SIZES[idx] as int,
            )) by {
            if pre.in_use(a) {
                let (j, c) = choose|j: int, c: usize|
                    #[trigger] pre.is_live(j, c) && in_range(a, c as int, SLAB_SIZES[j] as int);
                assert(post.is_live(j, c));
            }
            if in_range(a, addr as int, SLAB_SIZES[idx] as int) {
                assert(post.is_live(idx, addr));
            }
            if post.in_use(a) {
                let (j, c) = choose|j: int, c: usize|
                    #[trigger] post.is_live(j, c) && in_range(a, c as int, SLAB_SIZES[j] as int);
                if c != addr || j != idx {
                    assert(pre.is_live(j, c));
                }
            }
        }
    }

    /// Every byte in use lies in a page of some class.
    pub proof fn lemma_in_use_held(&self, a: int)
        requires
            self.wf(),
            self.in_use(a),
        ensures
            self.holds(a),
    {
        Self::lemma_class_sizes();
        let (j, c) = choose|j: int, c: usize|
            #[trigger] self.is_live(j, c) && in_range(a, c as int, SLAB_SIZES[j] as int);
        let p: int = choose|p: int| is_chunk_in(self.pages_of(j), SLAB_SIZES[j] as int, p,
            c as int);
        assert(in_range(a, self.pages_of(j)[p] as int, SLAB_PAGE_SIZE as int));
    }

    /// Puts the chunk at `ptr` back on the free list of the class that
    /// `layout.size()` selects; the class comes from the layout, never from the
    /// address. The caller owes that the chunk was handed out for this layout
    /// and has not been freed since. A size above the largest class changes
    /// nothing.
    pub fn deallocate(&mut self, ptr: usize, layout: Layout)
        requires
            old(self).wf(),
            layout.wf(),
            class_of(layout.size()) matches Some(idx) ==> old(self).is_live(idx as int, ptr),
        ensures
            final(self).wf(),
            class_of(layout.size()).is_none() ==> final(self).classes() == old(self).classes(),
            class_of(layout.size()) matches Some(idx) ==> {
                &&& final(self).free_of(idx as int) == old(self).free_of(idx as int).push(ptr)
                &&& !final(self).is_live(idx as int, ptr)
                &&& forall|j: int|
                    0 <= j < SLAB_CLASSES && j != idx
                        ==> final(self).classes()[j] == old(self).classes()[j]
            },
            forall|j: int|
                0 <= j < SLAB_CLASSES ==> final(self).pages_of(j) == old(self).pages_of(j),
            forall|j: int, c: usize|
                c != ptr || !selects(layout.size(), j)
                    ==> final(self).is_live(j, c) == old(self).is_live(j, c),
    {
        let size: usize = layout.size();
        if size > MAX_SLAB_SIZE {
            return ;
        }
        let idx: usize = match Self::size_to_index(size) {
            Some(i) => i,
            None => {
                return ;
            },
        };
        proof {
            assert(old(self).published(idx as int)) by {
                if !old(self).published(idx as int) {
                    assert(old(self).pages_of(idx as int).len() == 0);
                }
            }
        }
        match &mut self.slabs[idx] {
            Some(list) => {
                list.push(ptr);
            },
            None => {},
        }
        proof {
            let i: int = idx as int;
            assert(self.classes()[i].is_some());
            assert forall|j: int| 0 <= j < SLAB_CLASSES
                implies self.pages_of(j) == old(self).pages_of(j) by {
                if j != i {
                    assert(self.classes()[j] == old(self).classes()[j]);
                }
            }
            assert forall|j: int, c: usize|
                c != ptr || !selects(layout.size(), j)
                    implies self.is_live(j, c) == old(self).is_live(j, c) by {
                if 0 <= j < SLAB_CLASSES {
                    if j == i {
                        assert(self.free_of(i).drop_last() =~= old(self).free_of(i));
                        lemma_contains_after_drop(
                            self.free_of(i),
                            old(self).free_of(i),
                            Some(ptr),
                            c,
                        );
                    } else {
                        assert(self.classes()[j] == old(self).classes()[j]);
                    }
                }
            }
            assert(self.is_chunk(i, ptr as int));
            Self::lemma_in_use_after_take(self, old(self), i, ptr);
        }
    }

    /// Gives class `idx` the page of 4096 bytes reserved at `slab_data` and
    /// lists each of its chunks as free, the one at the highest address to be
    /// handed out first. A page that is null, misaligned, too close to the end
    /// of the address space or overlapping a page already held is refused, and
    /// nothing changes.
    pub fn allocate_new_slab(&mut self, idx: usize, slab_data: usize) -> (r: bool)
        requires
            old(self).wf(),
            idx < SLAB_CLASSES,
        ensures
            final(self).wf(),
            r == old(self).accepts(slab_data),
            !r ==> final(self).classes() == old(self).classes(),
            r ==> {
                &&& final(self).published(idx as int)
                &&& final(self).pages_of(idx as int) == old(self).pages_of(idx as int).push(
                    slab_data,
                )
                &&& final(self).free_of(idx as int) == old(self).free_of(idx as int)
                    + page_chunks(slab_data, SLAB_SIZES[idx as int])
                &&& forall|j: int|
                    0 <= j < SLAB_CLASSES && j != idx
                        ==> final(self).classes()[j] == old(self).classes()[j]
            },
            forall|j: int, c: usize| final(self).is_live(j, c) == old(self).is_live(j, c),
            forall|a: int| final(self).in_use(a) == old(self).in_use(a),
    {
        if slab_data == 0 || slab_data % SLAB_ALIGN != 0 || slab_data > usize::MAX
            - SLAB_PAGE_SIZE {
            return false;
        }
        if self.overlaps(slab_data, SLAB_PAGE_SIZE) {
            return false;
        }
        self.get_or_create_slab_list(idx);
        let ghost mid: SlabAllocator = *self;
        proof {
            let i: int = idx as int;
            assert(mid.classes()[i].is_some());
            let list: SlabList = mid.classes()[i].unwrap();
            assert forall|p: int| 0 <= p < list.pages().len() implies ranges_disjoint(
                (#[trigger] list.pages()[p]) as int,
                SLAB_PAGE_SIZE as int,
                slab_data as int,
                SLAB_PAGE_SIZE as int,
            ) by {
                assert(list.pages()[p] == old(self).pages_of(i)[p]);
            }
        }
        match &mut self.slabs[idx] {
            Some(list) => {
                list.add_page(slab_data);
            },
            None => {},
        }
        proof {
            let i: int = idx as int;
            assert(self.classes()[i].is_some());
            assert forall|j: int| 0 <= j < SLAB_CLASSES && j != i implies self.pages_of(j)
                == old(self).pages_of(j) && self.free_of(j) == old(self).free_of(j) by {
                assert(self.classes()[j] == mid.classes()[j]);
            }
            assert forall|a: int, b: int, p: int, q: int|
                0 <= a < SLAB_CLASSES && 0 <= b < SLAB_CLASSES && a != b && 0 <= p
                    < self.pages_of(a).len() && 0 <= q < self.pages_of(b).len()
                    implies ranges_disjoint(
                (#[trigger] self.pages_of(a)[p]) as int,
                SLAB_PAGE_SIZE as int,
                (#[trigger] self.pages_of(b)[q]) as int,
                SLAB_PAGE_SIZE as int,
            ) by {
                if a == i {
                    if p < old(self).pages_of(i).len() {
                        assert(self.pages_of(a)[p] == old(self).pages_of(a)[p]);
                    }
                    assert(self.pages_of(b)[q] == old(self).pages_of(b)[q]);
                } else if b == i {
                    if q < old(self).pages_of(i).len() {
                        assert(self.pages_of(b)[q] == old(self).pages_of(b)[q]);
                    }
                    assert(self.pages_of(a)[p] == old(self).pages_of(a)[p]);
                } else {
                    assert(self.pages_of(a)[p] == old(self).pages_of(a)[p]);
                    assert(self.pages_of(b)[q] == old(self).pages_of(b)[q]);
                }
            }
            assert forall|j: int, c: usize| self.is_live(j, c) == old(self).is_live(j, c) by {
                if 0 <= j < SLAB_CLASSES {
                    if j == i {
                        assert(self.classes()[i].unwrap().is_live(c)
                            == mid.classes()[i].unwrap().is_live(c));
                    } else {
                        assert(self.classes()[j] == mid.classes()[j]);
                    }
                }
            }
        }
        true
    }

    /// Tests whether `ptr` starts a chunk that is handed out for layouts of the
    /// class of `layout`.
    pub fn is_allocated(&self, ptr: usize, layout: Layout) -> (r: bool)
        requires
            self.wf(),
            layout.wf(),
        ensures
            r == (class_of(layout.size()) matches Some(idx) && self.is_live(idx as int, ptr)),
    {
        let idx: usize = match Self::size_to_index(layout.size()) {
            Some(i) => i,
            None => {
                return false;
            },
        };
        match &self.slabs[idx] {
            Some(list) => list.is_allocated(ptr),
            None => false,
        }
    }

    /// Tests whether any page of any class shares a byte with `[base, base + len)`.
    pub fn overlaps(&self, base: usize, len: usize) -> (r: bool)
        requires
            self.wf(),
            base + len <= usize::MAX,
        ensures
            r == !self.clear_of(base as int, len as int),
    {
        let mut i: usize = 0;
        while i < SLAB_CLASSES
            invariant
                self.wf(),
                base + len <= usize::MAX,
                0 <= i <= SLAB_CLASSES,
                forall|j: int, p: int|
                    0 <= j < i && 0 <= p < self.pages_of(j).len() ==> ranges_disjoint(
                        (#[trigger] self.pages_of(j)[p]) as int,
                        SLAB_PAGE_SIZE as int,
                        base as int,
                        len as int,
                    ),
            decreases SLAB_CLASSES - i,
        {
            let hit: bool = match &self.slabs[i] {
                Some(list) => list.overlaps(base, len),
                None => false,
            };
            if hit {
                proof {
                    let list: SlabList = self.classes()[i as int].unwrap();
                    let p: int = choose|p: int|
                        0 <= p < list.pages().len() && !ranges_disjoint(
                            (#[trigger] list.pages()[p]) as int,
                            SLAB_PAGE_SIZE as int,
                            base as int,
                            len as int,
                        );
                    assert(self.pages_of(i as int)[p] == list.pages()[p]);
                }
                return true;
            }
            i += 1;
        }
        false
    }

    /// Number of free chunks in class `idx`.
    pub fn free_count(&self, idx: usize) -> (r: usize)
        requires
            self.wf(),
            idx < SLAB_CLASSES,
        ensures
            r == self.free_of(idx as int).len(),
    {
        match &self.slabs[idx] {
            Some(list) => list.free_count(),
            None => 0,
        }
    }

    /// Number of backing pages of class `idx`.
    pub fn page_count(&self, idx: usize) -> (r: usize)
        requires
            self.wf(),
            idx < SLAB_CLASSES,
        ensures
            r == self.pages_of(idx as int).len(),
    {
        match &self.slabs[idx] {
            Some(list) => list.page_count(),
            None => 0,
        }
    }

    /// No free list refers to memory outside the pages of its class: every
    /// entry is a whole chunk inside one of them.
    pub proof fn lemma_free_list_within_pages(&self, idx: int, i: int)
        requires
            self.wf(),
            0 <= idx < SLAB_CLASSES,
            0 <= i < self.free_of(idx).len(),
        ensures
            exists|p: int|
                0 <= p < self.pages_of(idx).len() && (#[trigger] self.pages_of(idx)[p])
                    <= self.free_of(idx)[i] && self.free_of(idx)[i] + SLAB_SIZES[idx]
                    <= self.pages_of(idx)[p] + SLAB_PAGE_SIZE,
    {
        let list: SlabList = self.classes()[idx].unwrap();
        assert(list.is_chunk(list.free()[i] as int));
        let p: int = choose|p: int|
            is_chunk_in(list.pages(), list.chunk_size() as int, p, list.free()[i] as int);
        assert(self.pages_of(idx)[p] == list.pages()[p]);
    }

    /// Every chunk starts at a multiple of `SLAB_ALIGN`.
    pub proof fn lemma_chunk_aligned(&self, idx: int, addr: int)
        requires
            self.wf(),
            self.is_chunk(idx, addr),
        ensures
            addr % (SLAB_ALIGN as int) == 0,
    {
        Self::lemma_class_sizes();
        let cs: int = SLAB_SIZES[idx] as int;
        let p: int = choose|p: int| is_chunk_in(self.pages_of(idx), cs, p, addr);
        let page: int = self.pages_of(idx)[p] as int;
        assert(self.classes()[idx].unwrap().wf());
        assert(page_valid(self.classes()[idx].unwrap().pages()[p]));
        assert(cs % 16 == 0);
        lemma_multiple_of_divisor(addr - page, cs, 16);
        lemma_sum_of_multiples(page, addr - page, 16);
    }
}

/// Membership in a list before and after its last entry may have been taken.
pub proof fn lemma_contains_after_drop(
    before: Seq<usize>,
    after: Seq<usize>,
    taken: Option<usize>,
    c: usize,
)
    requires
        taken.is_some() <==> before.len() > 0,
        taken matches Some(addr) ==> addr == before.last() && after == before.drop_last(),
        taken.is_none() ==> after == before,
        taken != Some(c),
    ensures
        after.contains(c) == before.contains(c),
{
    if taken.is_some() {
        if before.contains(c) {
            let i: int = choose|i: int| 0 <= i < before.len() && before[i] == c;
            assert(after[i] == c);
        }
        if after.contains(c) {
            let i: int = choose|i: int| 0 <= i < after.len() && after[i] == c;
            assert(before[i] == c);
        }
    }
}

} // verus!
