//! The dispatcher: routes every request to the slab or the arena strategy by
//! its size and alignment, and keeps a list of the blocks too large for either.
//!
//! The route is a function of the layout alone and is computed the same way
//! when a block is handed out and when it is given back. Memory is reserved
//! by the caller: where the memory held cannot serve a request, the caller
//! reserves what `refill_layout` names and hands it over with `allocate_fresh`.
//! A large block that is given back leaves the list; its record tells the
//! caller what to release.

use crate::arena::{ArenaAllocator, ArenaNode, ARENA_ALIGN, ARENA_SIZE};
use crate::layout::{in_range, ranges_disjoint, ranges_overlap, round_up, Layout};
use crate::slab::{
    class_of, page_chunks, page_valid, SlabAllocator, MAX_SLAB_SIZE, SLAB_ALIGN, SLAB_CLASSES,
    SLAB_PAGE_SIZE, SLAB_SIZES,
};
use vstd::prelude::*;

verus! {

/// The largest request that the arena strategy serves.
pub const ARENA_LIMIT: usize = 4096;

/// The strategy that serves a request.
#[derive(Clone, Copy, Debug, PartialEq, Eq, Structural)]
pub enum Route {
    /// A chunk of a size class.
    Slab,
    /// A block carved from the current arena chunk.
    Arena,
    /// A block reserved for this request alone.
    Large,
}

/// The route of a layout: the slab strategy for sizes up to 2048 with an
/// alignment up to 16, else the arena strategy for sizes up to 4096, else a
/// large block.
pub open spec fn route_of(layout: Layout) -> Route {
    if layout.size() <= MAX_SLAB_SIZE && layout.align() <= SLAB_ALIGN {
        Route::Slab
    } else if layout.size() <= ARENA_LIMIT {
        Route::Arena
    } else {
        Route::Large
    }
}

/// Computes the route of `layout`.
pub fn route(layout: Layout) -> (r: Route)
    ensures
        r == route_of(layout),
{
    if layout.size() <= MAX_SLAB_SIZE && layout.align() <= SLAB_ALIGN {
        Route::Slab
    } else if layout.size() <= ARENA_LIMIT {
        Route::Arena
    } else {
        Route::Large
    }
}

/// The record of one large block: where it is, and the layout it was reserved
/// with, which is the one to release it with.
#[derive(Clone, Copy, Debug)]
pub struct LargeBlockNode {
    ptr: usize,
    size: usize,
    layout: Layout,
}

impl LargeBlockNode {
    /// Address of the block's first byte.
    pub closed spec fn spec_ptr(&self) -> usize {
        self.ptr
    }

    /// Bytes in the block.
    pub closed spec fn spec_size(&self) -> usize {
        self.size
    }

    /// The layout that the block was reserved with.
    pub closed spec fn spec_layout(&self) -> Layout {
        self.layout
    }

    /// What makes a block at `ptr` a large block for `layout`: a layout too
    /// large for the arena strategy, a non-null address aligned as the layout
    /// asks, and an end that the address space can hold.
    pub open spec fn valid(ptr: usize, layout: Layout) -> bool {
        &&& layout.wf()
        &&& layout.size() > ARENA_LIMIT
        &&& ptr != 0
        &&& ptr % layout.align() == 0
        &&& ptr + layout.size() <= usize::MAX
    }

    /// Every record that this library keeps is of a valid block, with the size
    /// of its layout.
    pub open spec fn wf(&self) -> bool {
        Self::valid(self.ptr(), self.layout()) && self.size() == self.layout().size()
    }

    /// Address of the block's first byte.
    #[verifier::when_used_as_spec(spec_ptr)]
    pub fn ptr(&self) -> (r: usize)
        ensures
            r == self.spec_ptr(),
    {
        self.ptr
    }

    /// Bytes in the block.
    #[verifier::when_used_as_spec(spec_size)]
    pub fn size(&self) -> (r: usize)
        ensures
            r == self.spec_size(),
    {
        self.size
    }

    /// The layout that the block was reserved with.
    #[verifier::when_used_as_spec(spec_layout)]
    pub fn layout(&self) -> (r: Layout)
        ensures
            r == self.spec_layout(),
    {
        self.layout
    }
}

/// The dispatcher with its two strategies and the list of large blocks, most
/// recently reserved last.
pub struct HybridAllocator {
    arena: ArenaAllocator,
    slab: SlabAllocator,
    large_blocks: Vec<LargeBlockNode>,
}

impl HybridAllocator {
    /// The arena strategy's state.
    pub closed spec fn arena_view(&self) -> ArenaAllocator {
        self.arena
    }

    /// The slab strategy's state.
    pub closed spec fn slab_view(&self) -> SlabAllocator {
        self.slab
    }

    /// The records of the large blocks, most recently reserved last.
    pub closed spec fn large_view(&self) -> Seq<LargeBlockNode> {
        self.large_blocks@
    }

    /// Whether a large block starts at `ptr`.
    pub open spec fn tracks(&self, ptr: usize) -> bool {
        exists|j: int| 0 <= j < self.large_view().len()
            && (#[trigger] self.large_view()[j]).ptr() == ptr
    }

    /// Position of the record of the large block at `ptr`.
    pub open spec fn position(&self, ptr: usize) -> int {
        choose|j: int| 0 <= j < self.large_view().len()
            && (#[trigger] self.large_view()[j]).ptr() == ptr
    }

    /// Whether the byte at `addr` belongs to a large block.
    pub open spec fn large_in_use(&self, addr: int) -> bool {
        exists|j: int|
            0 <= j < self.large_view().len() && in_range(
                addr,
                (#[trigger] self.large_view()[j]).ptr() as int,
                self.large_view()[j].size() as int,
            )
    }

    /// Whether the byte at `addr` belongs to a block that is handed out, by
    /// whichever strategy. Bytes that the arena strategy has passed count:
    /// it never takes a block back.
    pub open spec fn in_use(&self, addr: int) -> bool {
        self.arena_view().spent(addr) || self.slab_view().in_use(addr) || self.large_in_use(addr)
    }

    /// Whether no large block shares a byte with `[base, base + len)`.
    pub open spec fn large_clear_of(&self, base: int, len: int) -> bool {
        forall|j: int|
            0 <= j < self.large_view().len() ==> ranges_disjoint(
                (#[trigger] self.large_view()[j]).ptr() as int,
                self.large_view()[j].size() as int,
                base,
                len,
            )
    }

    /// Whether no memory held, by whichever strategy, shares a byte with
    /// `[base, base + len)`.
    pub open spec fn clear_of(&self, base: int, len: int) -> bool {
        &&& self.arena_view().clear_of(base, len)
        &&& self.slab_view().clear_of(base, len)
        &&& self.large_clear_of(base, len)
    }

    /// The invariant: both strategies are well formed, every large block is
    /// valid, and no two regions held, of whichever kind, share a byte.
    pub open spec fn wf(&self) -> bool {
        &&& self.arena_view().wf()
        &&& self.slab_view().wf()
        &&& forall|j: int| 0 <= j < self.large_view().len()
            ==> (#[trigger] self.large_view()[j]).wf()
        &&& forall|i: int, j: int|
            0 <= i < j < self.large_view().len() ==> ranges_disjoint(
                (#[trigger] self.large_view()[i]).ptr() as int,
                self.large_view()[i].size() as int,
                (#[trigger] self.large_view()[j]).ptr() as int,
                self.large_view()[j].size() as int,
            )
        &&& forall|i: int|
            0 <= i < self.arena_view().chain().len() ==> self.slab_view().clear_of(
                (#[trigger] self.arena_view().chain()[i]).data() as int,
                self.arena_view().chain()[i].size() as int,
            )
        &&& forall|j: int|
            0 <= j < self.large_view().len() ==> self.arena_view().clear_of(
                (#[trigger] self.large_view()[j]).ptr() as int,
                self.large_view()[j].size() as int,
            ) && self.slab_view().clear_of(
                self.large_view()[j].ptr() as int,
                self.large_view()[j].size() as int,
            )
    }

    /// What the caller of `deallocate` owes: a block on the slab route is a
    /// chunk of the layout's class that is handed out.
    pub open spec fn can_free(&self, ptr: usize, layout: Layout) -> bool {
        route_of(layout) == Route::Slab ==> self.slab_view().is_live(
            class_of(layout.size()).unwrap() as int,
            ptr,
        )
    }

    /// Whether memory reserved at `fresh` can back a request for `layout`: it
    /// is valid as what the layout's route needs, a slab page, an arena chunk
    /// or the large block itself, and shares no byte with the memory held.
    pub open spec fn accepts(&self, layout: Layout, fresh: usize) -> bool {
        match route_of(layout) {
            Route::Slab => page_valid(fresh) && self.clear_of(fresh as int, SLAB_PAGE_SIZE as int),
            Route::Arena => ArenaNode::valid(fresh, ARENA_SIZE) && self.clear_of(
                fresh as int,
                ARENA_SIZE as int,
            ),
            Route::Large => LargeBlockNode::valid(fresh, layout) && self.clear_of(
                fresh as int,
                layout.size() as int,
            ),
        }
    }

    /// What holds of a block handed out at `addr` for `layout`: it ends within
    /// the address space; it is aligned as asked, on the slab route, as a large
    /// block, and on the arena route for alignments up to that of a chunk; none
    /// of its bytes was in use and all of them are now; every byte that was in
    /// use still is; and the block may be given back.
    pub open spec fn block_fresh(
        pre: &HybridAllocator,
        post: &HybridAllocator,
        addr: usize,
        layout: Layout,
    ) -> bool {
        &&& addr + layout.size() <= usize::MAX
        &&& (layout.align() <= ARENA_ALIGN || route_of(layout) == Route::Large) ==> addr
            % layout.align() == 0
        &&& forall|a: int|
            in_range(a, addr as int, layout.size() as int) ==> !pre.in_use(a) && post.in_use(a)
        &&& forall|a: int| pre.in_use(a) ==> post.in_use(a)
        &&& post.can_free(addr, layout)
    }

    /// Whether every block that may be given back in `pre` may still be
    /// given back in `post`.
    pub open spec fn frees_kept(pre: &HybridAllocator, post: &HybridAllocator) -> bool {
        forall|p: usize, l: Layout| #[trigger] pre.can_free(p, l) ==> post.can_free(p, l)
    }

    /// How `allocate` takes the state `pre` to `post` with result `r`.
    pub open spec fn allocate_spec(
        pre: &HybridAllocator,
        post: &HybridAllocator,
        layout: Layout,
        r: Option<usize>,
    ) -> bool {
        &&& post.large_view() == pre.large_view()
        &&& match route_of(layout) {
            Route::Slab => {
                let idx = class_of(layout.size()).unwrap() as int;
                let free = pre.slab_view().free_of(idx);
                &&& post.arena_view() == pre.arena_view()
                &&& r.is_some() <==> free.len() > 0
                &&& r matches Some(addr) ==> addr == free.last() && post.slab_view().free_of(idx)
                    == free.drop_last()
                &&& r.is_none() ==> post.slab_view().free_of(idx) == free
                &&& forall|j: int|
                    0 <= j < SLAB_CLASSES && j != idx ==> post.slab_view().free_of(j)
                        == pre.slab_view().free_of(j)
                &&& forall|j: int|
                    0 <= j < SLAB_CLASSES ==> post.slab_view().pages_of(j)
                        == pre.slab_view().pages_of(j)
            },
            Route::Arena => {
                let aligned = round_up(pre.arena_view().offset() as int, layout.align() as int);
                &&& post.slab_view() == pre.slab_view()
                &&& post.arena_view().chain() == pre.arena_view().chain()
                &&& r.is_some() <==> pre.arena_view().fits(layout)
                &&& r matches Some(addr) ==> addr == pre.arena_view().current().data() + aligned
                    && post.arena_view().offset() == aligned + layout.size()
                &&& r.is_none() ==> post.arena_view().offset() == pre.arena_view().offset()
            },
            Route::Large => {
                &&& r.is_none()
                &&& post.arena_view() == pre.arena_view()
                &&& post.slab_view() == pre.slab_view()
            },
        }
        &&& r matches Some(addr) ==> Self::block_fresh(pre, post, addr, layout)
        &&& r.is_none() ==> forall|a: int| post.in_use(a) == pre.in_use(a)
        &&& Self::frees_kept(pre, post)
    }

    /// How `deallocate` takes the state `pre` to `post` with result `r`: the
    /// bytes of the block given back are no longer in use, all others are as
    /// they were, every other block that may be given back still may, and `r`
    /// is the record of a large block that left the list.
    pub open spec fn deallocate_spec(
        pre: &HybridAllocator,
        post: &HybridAllocator,
        ptr: usize,
        layout: Layout,
        r: Option<LargeBlockNode>,
    ) -> bool {
        &&& post.arena_view() == pre.arena_view()
        &&& forall|p: usize, l: Layout|
            #[trigger] pre.can_free(p, l) && (p != ptr || class_of(l.size()) != class_of(
                layout.size(),
            )) ==> post.can_free(p, l)
        &&& match route_of(layout) {
            Route::Slab => {
                let idx = class_of(layout.size()).unwrap() as int;
                &&& r.is_none()
                &&& post.large_view() == pre.large_view()
                &&& post.slab_view().free_of(idx) == pre.slab_view().free_of(idx).push(ptr)
                &&& forall|j: int|
                    0 <= j < SLAB_CLASSES && j != idx ==> post.slab_view().free_of(j)
                        == pre.slab_view().free_of(j)
                &&& forall|j: int|
                    0 <= j < SLAB_CLASSES ==> post.slab_view().pages_of(j)
                        == pre.slab_view().pages_of(j)
                &&& forall|a: int|
                    post.in_use(a) == (pre.in_use(a) && !in_range(
                        a,
                        ptr as int,
                        SLAB_SIZES[idx] as int,
                    ))
            },
            Route::Arena => {
                &&& r.is_none()
                &&& post.large_view() == pre.large_view()
                &&& post.slab_view() == pre.slab_view()
                &&& forall|a: int| post.in_use(a) == pre.in_use(a)
            },
            Route::Large => Self::large_removed(pre, post, ptr, r),
        }
    }

    /// How the list of large blocks changes when the block at `ptr` is given
    /// back: its record, if there is one, leaves the list and is the result.
    pub open spec fn large_removed(
        pre: &HybridAllocator,
        post: &HybridAllocator,
        ptr: usize,
        r: Option<LargeBlockNode>,
    ) -> bool {
        &&& post.arena_view() == pre.arena_view()
        &&& post.slab_view() == pre.slab_view()
        &&& r.is_some() <==> pre.tracks(ptr)
        &&& r matches Some(node) ==> {
            &&& node == pre.large_view()[pre.position(ptr)]
            &&& node.ptr() == ptr
            &&& post.large_view() == pre.large_view().remove(pre.position(ptr))
            &&& forall|a: int|
                post.in_use(a) == (pre.in_use(a) && !in_range(a, ptr as int, node.size() as int))
        }
        &&& r.is_none() ==> post.large_view() == pre.large_view() && forall|a: int|
            post.in_use(a) == pre.in_use(a)
    }

    /// How the list of large blocks changes when the block reserved at `ptr`
    /// for `layout` is recorded.
    pub open spec fn large_added(
        pre: &HybridAllocator,
        post: &HybridAllocator,
        ptr: usize,
        layout: Layout,
    ) -> bool {
        &&& post.arena_view() == pre.arena_view()
        &&& post.slab_view() == pre.slab_view()
        &&& post.large_view().len() == pre.large_view().len() + 1
        &&& post.large_view().drop_last() == pre.large_view()
        &&& post.large_view().last().ptr() == ptr
        &&& post.large_view().last().size() == layout.size()
        &&& post.large_view().last().layout() == layout
        &&& Self::block_fresh(pre, post, ptr, layout)
    }

    /// Whether nothing that contracts speak of differs between two states.
    pub open spec fn unchanged(pre: &HybridAllocator, post: &HybridAllocator) -> bool {
        &&& post.arena_view() == pre.arena_view()
        &&& post.slab_view() == pre.slab_view()
        &&& post.large_view() == pre.large_view()
    }

    /// How `allocate_fresh` takes the state `pre` to `post` with result `r`.
    pub open spec fn allocate_fresh_spec(
        pre: &HybridAllocator,
        post: &HybridAllocator,
        layout: Layout,
        fresh: usize,
        r: Option<usize>,
    ) -> bool {
        &&& r.is_some() <==> pre.accepts(layout, fresh)
        &&& r.is_none() ==> Self::unchanged(pre, post)
        &&& Self::frees_kept(pre, post)
        &&& r matches Some(addr) ==> match route_of(layout) {
            Route::Slab => {
                let idx = class_of(layout.size()).unwrap() as int;
                let chunk_size = SLAB_SIZES[idx];
                &&& addr == fresh + SLAB_PAGE_SIZE - chunk_size
                &&& post.arena_view() == pre.arena_view()
                &&& post.large_view() == pre.large_view()
                &&& post.slab_view().pages_of(idx) == pre.slab_view().pages_of(idx).push(fresh)
                &&& post.slab_view().free_of(idx) == (pre.slab_view().free_of(idx) + page_chunks(
                    fresh,
                    chunk_size,
                )).drop_last()
                &&& forall|j: int|
                    0 <= j < SLAB_CLASSES && j != idx ==> post.slab_view().free_of(j)
                        == pre.slab_view().free_of(j) && post.slab_view().pages_of(j)
                        == pre.slab_view().pages_of(j)
                &&& Self::block_fresh(pre, post, addr, layout)
            },
            Route::Arena => {
                &&& addr == fresh
                &&& post.slab_view() == pre.slab_view()
                &&& post.large_view() == pre.large_view()
                &&& post.arena_view().chain().len() == pre.arena_view().chain().len() + 1
                &&& post.arena_view().chain().drop_last() == pre.arena_view().chain()
                &&& post.arena_view().current().data() == fresh
                &&& post.arena_view().current().size() == ARENA_SIZE
                &&& post.arena_view().offset() == layout.size()
                &&& Self::block_fresh(pre, post, addr, layout)
            },
            Route::Large => addr == fresh && Self::large_added(pre, post, fresh, layout),
        }
    }

    /// A dispatcher that holds no memory.
    pub fn new() -> (r: HybridAllocator)
        ensures
            r.wf(),
            r.arena_view().chain().len() == 0,
            r.large_view().len() == 0,
            forall|idx: int| 0 <= idx < SLAB_CLASSES ==> !r.slab_view().published(idx),
    {
        HybridAllocator {
            arena: ArenaAllocator::new(),
            slab: SlabAllocator::new(),
            large_blocks: Vec::new(),
        }
    }

    /// The arena strategy.
    pub fn arena(&self) -> (r: &ArenaAllocator)
        ensures
            *r == self.arena_view(),
    {
        &self.arena
    }

    /// The slab strategy.
    pub fn slab(&self) -> (r: &SlabAllocator)
        ensures
            *r == self.slab_view(),
    {
        &self.slab
    }

    /// Number of large blocks.
    pub fn large_block_count(&self) -> (r: usize)
        ensures
            r == self.large_view().len(),
    {
        self.large_blocks.len()
    }

    /// Serves `layout` from the memory held, by the strategy of its route.
    /// `None` where that cannot be done: the class has no free chunk, the
    /// current arena chunk has no room, or the layout calls for a large block.
    pub fn allocate(&mut self, layout: Layout) -> (r: Option<usize>)
        requires
            old(self).wf(),
            layout.wf(),
        ensures
            final(self).wf(),
            Self::allocate_spec(old(self), final(self), layout, r),
    {
        match route(layout) {
            Route::Slab => {
                let ghost pre: HybridAllocator = *self;
                let r: Option<usize> = self.slab.allocate(layout);
                proof {
                    Self::lemma_same_pages_clear(&pre.slab, &self.slab);
                    if r.is_some() {
                        let idx: int = class_of(layout.size()).unwrap() as int;
                        assert(class_of(layout.size()).is_some());
                        assert(SLAB_SIZES[idx] >= layout.size());
                        assert(SlabAllocator::chunk_taken(&pre.slab, &self.slab, idx, r.unwrap()));
                        pre.lemma_slab_block_fresh(self, r.unwrap(), layout);
                    }
                    assert(self.large_view() == old(self).large_view());
                    assert(self.arena == old(self).arena);
                }
                r
            },
            Route::Arena => {
                let r: Option<usize> = self.arena.allocate(layout);
                proof {
                    if r.is_some() {
                        let addr: usize = r.unwrap();
                        let last: int = old(self).arena_view().chain().len() - 1;
                        assert forall|a: int|
                            #[trigger] in_range(
                                a,
                                addr as int,
                                layout.size() as int,
                            ) implies !old(self).slab_view().in_use(a) && !old(self).large_in_use(
                            a,
                        ) by {
                            assert(old(self).arena_view().chain()[last].contains(a));
                            old(self).lemma_arena_bytes_apart(a);
                        }
                        old(self).lemma_arena_block_fresh(self, addr, layout);
                    } else {
                        ArenaAllocator::lemma_same_spent(&old(self).arena, &self.arena);
                    }
                    assert(self.large_view() == old(self).large_view());
                    assert(self.slab == old(self).slab);
                }
                r
            },
            Route::Large => None,
        }
    }

    /// The reservation that serves `layout` where the memory held cannot: a
    /// slab page, an arena chunk, or a block of the layout itself.
    pub fn refill_layout(layout: Layout) -> (r: Layout)
        requires
            layout.wf(),
        ensures
            r.wf(),
            route_of(layout) == Route::Slab ==> r.size() == SLAB_PAGE_SIZE && r.align()
                == SLAB_ALIGN,
            route_of(layout) == Route::Arena ==> r.size() == ARENA_SIZE && r.align()
                == ARENA_ALIGN,
            route_of(layout) == Route::Large ==> r == layout,
    {
        proof {
            reveal_with_fuel(vstd::arithmetic::power2::is_pow2, 6);
        }
        match route(layout) {
            Route::Slab => match Layout::from_size_align(SLAB_PAGE_SIZE, SLAB_ALIGN) {
                Some(l) => l,
                None => layout,
            },
            Route::Arena => match Layout::from_size_align(ARENA_SIZE, ARENA_ALIGN) {
                Some(l) => l,
                None => layout,
            },
            Route::Large => layout,
        }
    }

    /// Tests whether any memory held shares a byte with `[base, base + len)`.
    pub fn overlaps(&self, base: usize, len: usize) -> (r: bool)
        requires
            self.wf(),
            base + len <= usize::MAX,
        ensures
            r == !self.clear_of(base as int, len as int),
    {
        if self.arena.overlaps(base, len) || self.slab.overlaps(base, len) {
            return true;
        }
        let mut j: usize = 0;
        while j < self.large_blocks.len()
            invariant
                self.wf(),
                base + len <= usize::MAX,
                0 <= j <= self.large_blocks.len(),
                forall|k: int|
                    0 <= k < j ==> ranges_disjoint(
                        (#[trigger] self.large_view()[k]).ptr() as int,
                        self.large_view()[k].size() as int,
                        base as int,
                        len as int,
                    ),
            decreases self.large_blocks.len() - j,
        {
            let node: LargeBlockNode = self.large_blocks[j];
            assert(self.large_view()[j as int].wf());
            if ranges_overlap(node.ptr, node.size, base, len) {
                return true;
            }
            j += 1;
        }
        false
    }

    /// Tests whether a large block starts at `ptr`.
    pub fn is_tracked(&self, ptr: usize) -> (r: bool)
        ensures
            r == self.tracks(ptr),
    {
        let mut j: usize = 0;
        while j < self.large_blocks.len()
            invariant
                0 <= j <= self.large_blocks.len(),
                forall|k: int| 0 <= k < j ==> (#[trigger] self.large_view()[k]).ptr() != ptr,
            decreases self.large_blocks.len() - j,
        {
            if self.large_blocks[j].ptr == ptr {
                assert(self.large_view()[j as int].ptr() == ptr);
                return true;
            }
            j += 1;
        }
        false
    }

    /// Tests what `deallocate` asks of its caller.
    pub fn can_deallocate(&self, ptr: usize, layout: Layout) -> (r: bool)
        requires
            self.wf(),
            layout.wf(),
        ensures
            r == self.can_free(ptr, layout),
    {
        match route(layout) {
            Route::Slab => self.slab.is_allocated(ptr, layout),
            _ => true,
        }
    }

    /// No byte of a range that is clear of the memory held is in use.
    pub proof fn lemma_clear_not_in_use(&self, base: int, len: int, a: int)
        requires
            self.wf(),
            self.clear_of(base, len),
            in_range(a, base, len),
        ensures
            !self.in_use(a),
            !self.arena_view().holds(a),
            !self.slab_view().holds(a),
    {
        if self.arena_view().holds(a) {
            let i: int = choose|i: int|
                0 <= i < self.arena_view().chain().len()
                    && (#[trigger] self.arena_view().chain()[i]).contains(
                    a,
                );
            assert(ranges_disjoint(
                self.arena_view().chain()[i].data() as int,
                self.arena_view().chain()[i].size() as int,
                base,
                len,
            ));
        }
        if self.arena_view().spent(a) {
            self.arena_view().lemma_spent_held(a);
        }
        if self.slab_view().holds(a) {
            let (idx, p) = choose|idx: int, p: int|
                0 <= idx < SLAB_CLASSES && 0 <= p < self.slab_view().pages_of(idx).len()
                    && in_range(
                    a,
                    (#[trigger] self.slab_view().pages_of(idx)[p]) as int,
                    SLAB_PAGE_SIZE as int,
                );
            assert(ranges_disjoint(
                self.slab_view().pages_of(idx)[p] as int,
                SLAB_PAGE_SIZE as int,
                base,
                len,
            ));
        }
        if self.slab_view().in_use(a) {
            self.slab_view().lemma_in_use_held(a);
        }
        if self.large_in_use(a) {
            let j: int = choose|j: int|
                0 <= j < self.large_view().len() && in_range(
                    a,
                    (#[trigger] self.large_view()[j]).ptr() as int,
                    self.large_view()[j].size() as int,
                );
            assert(ranges_disjoint(
                self.large_view()[j].ptr() as int,
                self.large_view()[j].size() as int,
                base,
                len,
            ));
        }
    }

    /// Records the block reserved at `ptr` for `layout` as the newest large
    /// block and hands it out. A block for a layout that the arena strategy
    /// can serve, or one that is null, misaligned, too close to the end of the
    /// address space or overlapping memory held, is refused, and nothing
    /// changes.
    pub fn allocate_large(&mut self, ptr: usize, layout: Layout) -> (r: Option<usize>)
        requires
            old(self).wf(),
            layout.wf(),
        ensures
            final(self).wf(),
            r.is_some() <==> LargeBlockNode::valid(ptr, layout) && old(self).clear_of(
                ptr as int,
                layout.size() as int,
            ),
            r.is_none() ==> Self::unchanged(old(self), final(self)),
            r matches Some(addr) ==> addr == ptr && Self::large_added(
                old(self),
                final(self),
                ptr,
                layout,
            ),
    {
        let size: usize = layout.size();
        proof {
            reveal(vstd::arithmetic::power2::is_pow2);
        }
        if size <= ARENA_LIMIT || ptr == 0 || ptr % layout.align() != 0 || size > usize::MAX
            - ptr {
            return None;
        }
        if self.overlaps(ptr, size) {
            return None;
        }
        let node: LargeBlockNode = LargeBlockNode { ptr, size, layout };
        self.large_blocks.push(node);
        proof {
            let n: int = old(self).large_view().len() as int;
            assert(self.large_view()[n] == node);
            assert(self.large_view().drop_last() =~= old(self).large_view());
            assert forall|j: int| 0 <= j < self.large_view().len()
                implies (#[trigger] self.large_view()[j]).wf() by {
                if j < n {
                    assert(self.large_view()[j] == old(self).large_view()[j]);
                }
            }
            assert forall|i: int, j: int| 0 <= i < j < self.large_view().len()
                implies ranges_disjoint(
                (#[trigger] self.large_view()[i]).ptr() as int,
                self.large_view()[i].size() as int,
                (#[trigger] self.large_view()[j]).ptr() as int,
                self.large_view()[j].size() as int,
            ) by {
                assert(self.large_view()[i] == old(self).large_view()[i]);
                if j < n {
                    assert(self.large_view()[j] == old(self).large_view()[j]);
                }
            }
            assert forall|j: int| 0 <= j < self.large_view().len()
                implies self.arena_view().clear_of(
                (#[trigger] self.large_view()[j]).ptr() as int,
                self.large_view()[j].size() as int,
            ) && self.slab_view().clear_of(
                self.large_view()[j].ptr() as int,
                self.large_view()[j].size() as int,
            ) by {
                if j < n {
                    assert(self.large_view()[j] == old(self).large_view()[j]);
                } else {
                    assert forall|i: int| 0 <= i < self.arena_view().chain().len()
                        implies ranges_disjoint(
                        (#[trigger] self.arena_view().chain()[i]).data() as int,
                        self.arena_view().chain()[i].size() as int,
                        ptr as int,
                        size as int,
                    ) by {}
                }
            }
            assert forall|a: int|
                in_range(a, ptr as int, size as int) implies !old(self).in_use(a) && self.in_use(
                a,
            ) by {
                old(self).lemma_clear_not_in_use(ptr as int, size as int, a);
                assert(in_range(a, self.large_view()[n].ptr() as int,
                    self.large_view()[n].size() as int));
            }
            assert forall|a: int| old(self).in_use(a) implies self.in_use(a) by {
                if old(self).large_in_use(a) {
                    let j: int = choose|j: int|
                        0 <= j < old(self).large_view().len() && in_range(
                            a,
                            (#[trigger] old(self).large_view()[j]).ptr() as int,
                            old(self).large_view()[j].size() as int,
                        );
                    assert(self.large_view()[j] == old(self).large_view()[j]);
                }
            }
        }
        Some(ptr)
    }

    /// Takes the record of the large block at `ptr` off the list and hands it
    /// to the caller, who releases the block with the layout in the record.
    /// `None`, with nothing changed, where no large block starts at `ptr`.
    pub fn deallocate_large(&mut self, ptr: usize, layout: Layout) -> (r: Option<LargeBlockNode>)
        requires
            old(self).wf(),
        ensures
            final(self).wf(),
            Self::large_removed(old(self), final(self), ptr, r),
    {
        let mut i: usize = self.large_blocks.len();
        while i > 0
            invariant
                self.wf(),
                *self == *old(self),
                0 <= i <= self.large_blocks.len(),
                forall|k: int|
                    i <= k < self.large_view().len() ==> (#[trigger] self.large_view()[k]).ptr()
                        != ptr,
            decreases i,
        {
            i -= 1;
            if self.large_blocks[i].ptr == ptr {
                let node: LargeBlockNode = self.large_blocks.remove(i);
                proof {
                    old(self).lemma_large_removed(self, i as int);
                }
                return Some(node);
            }
        }
        None
    }

    /// What taking record `i` off the list of large blocks does.
    proof fn lemma_large_removed(&self, post: &HybridAllocator, i: int)
        requires
            self.wf(),
            0 <= i < self.large_view().len(),
            post.arena_view() == self.arena_view(),
            post.slab_view() == self.slab_view(),
            post.large_view() == self.large_view().remove(i),
        ensures
            post.wf(),
            self.tracks(self.large_view()[i].ptr()),
            self.position(self.large_view()[i].ptr()) == i,
            forall|a: int|
                post.in_use(a) == (self.in_use(a) && !in_range(
                    a,
                    self.large_view()[i].ptr() as int,
                    self.large_view()[i].size() as int,
                )),
    {
        let node: LargeBlockNode = self.large_view()[i];
        let p: int = self.position(node.ptr());
        assert(self.large_view()[p].wf());
        assert(node.wf());
        if p < i {
            assert(ranges_disjoint(
                self.large_view()[p].ptr() as int,
                self.large_view()[p].size() as int,
                self.large_view()[i].ptr() as int,
                self.large_view()[i].size() as int,
            ));
        } else if i < p {
            assert(ranges_disjoint(
                self.large_view()[i].ptr() as int,
                self.large_view()[i].size() as int,
                self.large_view()[p].ptr() as int,
                self.large_view()[p].size() as int,
            ));
        }
        assert forall|j: int| 0 <= j < post.large_view().len()
            implies #[trigger] post.large_view()[j]
            == self.large_view()[if j < i {
            j
        } else {
            j + 1
        }] by {}
        assert forall|j: int| 0 <= j < post.large_view().len()
            implies (#[trigger] post.large_view()[j]).wf() by {
            let j0: int = if j < i { j } else { j + 1 };
            assert(self.large_view()[j0].wf());
        }
        assert forall|j: int, k: int| 0 <= j < k < post.large_view().len() implies ranges_disjoint(
            (#[trigger] post.large_view()[j]).ptr() as int,
            post.large_view()[j].size() as int,
            (#[trigger] post.large_view()[k]).ptr() as int,
            post.large_view()[k].size() as int,
        ) by {
            let j0: int = if j < i { j } else { j + 1 };
            let k0: int = if k < i { k } else { k + 1 };
            assert(ranges_disjoint(
                self.large_view()[j0].ptr() as int,
                self.large_view()[j0].size() as int,
                self.large_view()[k0].ptr() as int,
                self.large_view()[k0].size() as int,
            ));
        }
        assert forall|j: int| 0 <= j < post.large_view().len() implies post.arena_view().clear_of(
            (#[trigger] post.large_view()[j]).ptr() as int,
            post.large_view()[j].size() as int,
        ) && post.slab_view().clear_of(
            post.large_view()[j].ptr() as int,
            post.large_view()[j].size() as int,
        ) by {
            let j0: int = if j < i { j } else { j + 1 };
            assert(self.arena_view().clear_of(
                self.large_view()[j0].ptr() as int,
                self.large_view()[j0].size() as int,
            ));
        }
        assert forall|a: int|
            post.in_use(a) == (self.in_use(a) && !in_range(
                a,
                node.ptr() as int,
                node.size() as int,
            )) by {
            if post.large_in_use(a) {
                let j: int = choose|j: int|
                    0 <= j < post.large_view().len() && in_range(
                        a,
                        (#[trigger] post.large_view()[j]).ptr() as int,
                        post.large_view()[j].size() as int,
                    );
                let j0: int = if j < i { j } else { j + 1 };
                assert(post.large_view()[j] == self.large_view()[j0]);
                assert(in_range(a, self.large_view()[j0].ptr() as int,
                    self.large_view()[j0].size() as int));
                if j0 < i {
                    assert(ranges_disjoint(
                        self.large_view()[j0].ptr() as int,
                        self.large_view()[j0].size() as int,
                        self.large_view()[i].ptr() as int,
                        self.large_view()[i].size() as int,
                    ));
                } else {
                    assert(ranges_disjoint(
                        self.large_view()[i].ptr() as int,
                        self.large_view()[i].size() as int,
                        self.large_view()[j0].ptr() as int,
                        self.large_view()[j0].size() as int,
                    ));
                }
            }
            if self.large_in_use(a) && !in_range(a, node.ptr() as int, node.size() as int) {
                let j: int = choose|j: int|
                    0 <= j < self.large_view().len() && in_range(
                        a,
                        (#[trigger] self.large_view()[j]).ptr() as int,
                        self.large_view()[j].size() as int,
                    );
                let j1: int = if j < i { j } else { j - 1 };
                assert(post.large_view()[j1] == self.large_view()[j]);
            }
            if in_range(a, node.ptr() as int, node.size() as int) {
                assert(self.arena_view().clear_of(node.ptr() as int, node.size() as int));
                assert(self.slab_view().clear_of(node.ptr() as int, node.size() as int));
                if self.arena_view().spent(a) {
                    self.arena_view().lemma_spent_held(a);
                    let c: int = choose|c: int|
                        0 <= c < self.arena_view().chain().len()
                            && (#[trigger] self.arena_view().chain()[c]).contains(
                            a,
                        );
                    assert(ranges_disjoint(
                        self.arena_view().chain()[c].data() as int,
                        self.arena_view().chain()[c].size() as int,
                        node.ptr() as int,
                        node.size() as int,
                    ));
                }
                if self.slab_view().in_use(a) {
                    self.slab_view().lemma_in_use_held(a);
                    let (idx, q) = choose|idx: int, q: int|
                        0 <= idx < SLAB_CLASSES && 0 <= q < self.slab_view().pages_of(idx).len()
                            && in_range(
                            a,
                            (#[trigger] self.slab_view().pages_of(idx)[q]) as int,
                            SLAB_PAGE_SIZE as int,
                        );
                    assert(ranges_disjoint(
                        self.slab_view().pages_of(idx)[q] as int,
                        SLAB_PAGE_SIZE as int,
                        node.ptr() as int,
                        node.size() as int,
                    ));
                }
            }
        }
    }

    /// Gives the block at `ptr` back, by the route of `layout`: a chunk goes
    /// onto the free list of its class; a block of the arena strategy stays
    /// as it is; the record of a large block leaves the list and is handed
    /// to the caller, who releases the block with the layout in the record.
    /// The caller owes that the block was handed out for this layout and has
    /// not been given back since.
    pub fn deallocate(&mut self, ptr: usize, layout: Layout) -> (r: Option<LargeBlockNode>)
        requires
            old(self).wf(),
            layout.wf(),
            old(self).can_free(ptr, layout),
        ensures
            final(self).wf(),
            Self::deallocate_spec(old(self), final(self), ptr, layout, r),
    {
        match route(layout) {
            Route::Slab => {
                self.slab.deallocate(ptr, layout);
                proof {
                    let idx: int = class_of(layout.size()).unwrap() as int;
                    SlabAllocator::lemma_class_sizes();
                    Self::lemma_same_pages_clear(&old(self).slab, &self.slab);
                    assert(self.large_view() == old(self).large_view());
                    assert(self.arena == old(self).arena);
                    assert forall|a: int|
                        self.in_use(a) == (old(self).in_use(a) && !in_range(
                            a,
                            ptr as int,
                            SLAB_SIZES[idx] as int,
                        )) by {
                        if in_range(a, ptr as int, SLAB_SIZES[idx] as int) {
                            let p: int = choose|p: int|
                                crate::slab::is_chunk_in(
                                    old(self).slab_view().pages_of(idx),
                                    SLAB_SIZES[idx] as int,
                                    p,
                                    ptr as int,
                                );
                            assert(in_range(
                                a,
                                old(self).slab_view().pages_of(idx)[p] as int,
                                SLAB_PAGE_SIZE as int,
                            ));
                            old(self).lemma_slab_bytes_apart(a);
                        }
                    }
                }
                None
            },
            Route::Arena => None,
            Route::Large => self.deallocate_large(ptr, layout),
        }
    }

    /// Hands the dispatcher the memory reserved at `fresh` for `layout`, of
    /// the size and alignment that `refill_layout` names, and serves the
    /// layout from it: the memory becomes a page of the layout's class, the
    /// current arena chunk, or the large block itself. `None`, with nothing
    /// changed, where the memory is not valid as that or overlaps memory held.
    pub fn allocate_fresh(&mut self, layout: Layout, fresh: usize) -> (r: Option<usize>)
        requires
            old(self).wf(),
            layout.wf(),
        ensures
            final(self).wf(),
            Self::allocate_fresh_spec(old(self), final(self), layout, fresh, r),
    {
        match route(layout) {
            Route::Slab => self.fresh_page(layout, fresh),
            Route::Arena => self.fresh_arena(layout, fresh),
            Route::Large => self.allocate_large(fresh, layout),
        }
    }

    /// `allocate_fresh` on the slab route.
    fn fresh_page(&mut self, layout: Layout, fresh: usize) -> (r: Option<usize>)
        requires
            old(self).wf(),
            layout.wf(),
            route_of(layout) == Route::Slab,
        ensures
            final(self).wf(),
            Self::allocate_fresh_spec(old(self), final(self), layout, fresh, r),
    {
        if fresh == 0 || fresh % SLAB_ALIGN != 0 || fresh > usize::MAX - SLAB_PAGE_SIZE {
            return None;
        }
        if self.overlaps(fresh, SLAB_PAGE_SIZE) {
            return None;
        }
        let idx: usize = match SlabAllocator::size_to_index(layout.size()) {
            Some(i) => i,
            None => {
                return None;
            },
        };
        self.slab.allocate_new_slab(idx, fresh);
        let ghost mid: HybridAllocator = *self;
        proof {
            SlabAllocator::lemma_class_sizes();
            old(self).lemma_page_added(&mid, idx as int, fresh);
        }
        let r: Option<usize> = self.slab.allocate(layout);
        proof {
            let i: int = idx as int;
            let cs: usize = SLAB_SIZES[i];
            let chunks: Seq<usize> = page_chunks(fresh, cs);
            crate::slab::lemma_chunk_offset(chunks.len() - 1, cs as int);
            assert(chunks.len() * cs == SLAB_PAGE_SIZE) by {
                crate::slab::lemma_page_is_whole(cs as int);
            }
            assert(chunks.last() == fresh + SLAB_PAGE_SIZE - cs);
            assert((old(self).slab_view().free_of(i) + chunks).last() == chunks.last());
            Self::lemma_same_pages_clear(&mid.slab, &self.slab);
            assert(self.large_view() == old(self).large_view());
            assert(self.arena == old(self).arena);
            let addr: usize = r.unwrap();
            assert forall|a: int| #[trigger]
                in_range(a, addr as int, cs as int) implies !mid.slab_view().in_use(a) by {}
            mid.lemma_slab_block_fresh(self, addr, layout);
            assert forall|a: int|
                in_range(a, addr as int, layout.size() as int) implies !old(self).in_use(
                a,
            ) by {
                assert(!mid.in_use(a));
            }
            assert forall|j: int|
                0 <= j < SLAB_CLASSES && j != i
                    implies self.slab_view().free_of(j) == old(self).slab_view().free_of(j)
                    && self.slab_view().pages_of(j) == old(self).slab_view().pages_of(j) by {
                assert(mid.slab_view().classes()[j] == old(self).slab_view().classes()[j]);
                assert(self.slab_view().classes()[j] == mid.slab_view().classes()[j]);
            }
        }
        r
    }

    /// `allocate_fresh` on the arena route.
    fn fresh_arena(&mut self, layout: Layout, fresh: usize) -> (r: Option<usize>)
        requires
            old(self).wf(),
            layout.wf(),
            route_of(layout) == Route::Arena,
        ensures
            final(self).wf(),
            Self::allocate_fresh_spec(old(self), final(self), layout, fresh, r),
    {
        if ArenaNode::new(fresh, ARENA_SIZE).is_none() {
            return None;
        }
        if self.overlaps(fresh, ARENA_SIZE) {
            return None;
        }
        self.arena.create_arena(fresh);
        let ghost mid: HybridAllocator = *self;
        proof {
            old(self).lemma_arena_added(&mid, fresh);
            layout.lemma_align_positive();
            vstd::arithmetic::div_mod::lemma_small_mod(0, layout.align() as nat);
        }
        let r: Option<usize> = self.arena.allocate(layout);
        proof {
            let addr: usize = r.unwrap();
            assert(self.large_view() == old(self).large_view());
            assert(self.slab == old(self).slab);
            assert forall|a: int|
                #[trigger] in_range(
                    a,
                    addr as int,
                    layout.size() as int,
                ) implies !old(self).arena_view().spent(a) && self.arena_view().spent(a)
                && !old(self).slab_view().in_use(a) && !old(self).large_in_use(a) by {
                old(self).lemma_clear_not_in_use(fresh as int, ARENA_SIZE as int, a);
                assert(!mid.arena_view().spent(a));
            }
            assert forall|a: int|
                old(self).arena_view().spent(a) implies self.arena_view().spent(a) by {
                assert(mid.arena_view().spent(a));
            }
            if layout.align() <= ARENA_ALIGN {
                crate::layout::lemma_small_pow2_divides_16(layout.align() as int);
                crate::layout::lemma_multiple_of_divisor(
                    fresh as int,
                    16,
                    layout.align() as int,
                );
            }
            old(self).lemma_arena_block_fresh(self, addr, layout);
        }
        r
    }

    /// A page that is clear of all memory held keeps the dispatcher well
    /// formed when the slab strategy takes it.
    proof fn lemma_page_added(&self, post: &HybridAllocator, idx: int, page: usize)
        requires
            self.wf(),
            post.slab_view().wf(),
            0 <= idx < SLAB_CLASSES,
            page_valid(page),
            self.clear_of(page as int, SLAB_PAGE_SIZE as int),
            post.arena_view() == self.arena_view(),
            post.large_view() == self.large_view(),
            post.slab_view().pages_of(idx) == self.slab_view().pages_of(idx).push(page),
            forall|j: int|
                0 <= j < SLAB_CLASSES && j != idx ==> post.slab_view().classes()[j]
                    == self.slab_view().classes()[j],
            forall|a: int| post.slab_view().in_use(a) == self.slab_view().in_use(a),
        ensures
            post.wf(),
            forall|a: int| post.in_use(a) == self.in_use(a),
    {
        assert forall|base: int, len: int|
            self.slab_view().clear_of(base, len) && ranges_disjoint(
                page as int,
                SLAB_PAGE_SIZE as int,
                base,
                len,
            ) implies post.slab_view().clear_of(base, len) by {
            assert forall|j: int, p: int|
                0 <= j < SLAB_CLASSES && 0 <= p < post.slab_view().pages_of(j).len()
                    implies ranges_disjoint(
                (#[trigger] post.slab_view().pages_of(j)[p]) as int,
                SLAB_PAGE_SIZE as int,
                base,
                len,
            ) by {
                if j == idx {
                    if p < self.slab_view().pages_of(idx).len() {
                        assert(post.slab_view().pages_of(j)[p] == self.slab_view().pages_of(j)[p]);
                    }
                } else {
                    assert(post.slab_view().pages_of(j)[p] == self.slab_view().pages_of(j)[p]);
                }
            }
        }
        assert forall|i: int|
            0 <= i < post.arena_view().chain().len() implies post.slab_view().clear_of(
            (#[trigger] post.arena_view().chain()[i]).data() as int,
            post.arena_view().chain()[i].size() as int,
        ) by {
            assert(self.slab_view().clear_of(
                self.arena_view().chain()[i].data() as int,
                self.arena_view().chain()[i].size() as int,
            ));
        }
        assert forall|j: int|
            0 <= j < post.large_view().len() implies post.arena_view().clear_of(
            (#[trigger] post.large_view()[j]).ptr() as int,
            post.large_view()[j].size() as int,
        ) && post.slab_view().clear_of(
            post.large_view()[j].ptr() as int,
            post.large_view()[j].size() as int,
        ) by {
            assert(self.slab_view().clear_of(
                self.large_view()[j].ptr() as int,
                self.large_view()[j].size() as int,
            ));
        }
    }

    /// A chunk that is clear of all memory held keeps the dispatcher well
    /// formed when the arena strategy links it.
    proof fn lemma_arena_added(&self, post: &HybridAllocator, data: usize)
        requires
            self.wf(),
            post.arena_view().wf(),
            ArenaNode::valid(data, ARENA_SIZE),
            self.clear_of(data as int, ARENA_SIZE as int),
            post.slab_view() == self.slab_view(),
            post.large_view() == self.large_view(),
            post.arena_view().chain().len() == self.arena_view().chain().len() + 1,
            post.arena_view().chain().drop_last() == self.arena_view().chain(),
            post.arena_view().current().data() == data,
            post.arena_view().current().size() == ARENA_SIZE,
        ensures
            post.wf(),
    {
        let n: int = self.arena_view().chain().len() as int;
        assert forall|i: int| 0 <= i < n implies #[trigger] post.arena_view().chain()[i]
            == self.arena_view().chain()[i] by {
            assert(post.arena_view().chain().drop_last()[i] == post.arena_view().chain()[i]);
        }
        assert forall|i: int|
            0 <= i < post.arena_view().chain().len() implies post.slab_view().clear_of(
            (#[trigger] post.arena_view().chain()[i]).data() as int,
            post.arena_view().chain()[i].size() as int,
        ) by {
            if i < n {
                assert(self.slab_view().clear_of(
                    self.arena_view().chain()[i].data() as int,
                    self.arena_view().chain()[i].size() as int,
                ));
            } else {
                assert forall|j: int, p: int|
                    0 <= j < SLAB_CLASSES && 0 <= p < self.slab_view().pages_of(j).len()
                        implies ranges_disjoint(
                    (#[trigger] self.slab_view().pages_of(j)[p]) as int,
                    SLAB_PAGE_SIZE as int,
                    data as int,
                    ARENA_SIZE as int,
                ) by {}
            }
        }
        assert forall|j: int|
            0 <= j < post.large_view().len() implies post.arena_view().clear_of(
            (#[trigger] post.large_view()[j]).ptr() as int,
            post.large_view()[j].size() as int,
        ) && post.slab_view().clear_of(
            post.large_view()[j].ptr() as int,
            post.large_view()[j].size() as int,
        ) by {
            let block: LargeBlockNode = self.large_view()[j];
            assert(self.arena_view().clear_of(block.ptr() as int, block.size() as int));
            assert forall|i: int|
                0 <= i < post.arena_view().chain().len() implies ranges_disjoint(
                (#[trigger] post.arena_view().chain()[i]).data() as int,
                post.arena_view().chain()[i].size() as int,
                block.ptr() as int,
                block.size() as int,
            ) by {
                if i < n {
                    assert(ranges_disjoint(
                        self.arena_view().chain()[i].data() as int,
                        self.arena_view().chain()[i].size() as int,
                        block.ptr() as int,
                        block.size() as int,
                    ));
                } else {
                    assert(ranges_disjoint(
                        block.ptr() as int,
                        block.size() as int,
                        data as int,
                        ARENA_SIZE as int,
                    ));
                }
            }
        }
    }

    /// Slab states with the same pages are clear of the same ranges.
    pub proof fn lemma_same_pages_clear(pre: &SlabAllocator, post: &SlabAllocator)
        requires
            forall|j: int| 0 <= j < SLAB_CLASSES ==> post.pages_of(j) == pre.pages_of(j),
        ensures
            forall|base: int, len: int| post.clear_of(base, len) == pre.clear_of(base, len),
    {
        assert forall|base: int, len: int| post.clear_of(base, len) == pre.clear_of(base, len) by {
            if pre.clear_of(base, len) {
                assert forall|idx: int, p: int|
                    0 <= idx < SLAB_CLASSES && 0 <= p < post.pages_of(idx).len()
                        implies ranges_disjoint(
                    (#[trigger] post.pages_of(idx)[p]) as int,
                    SLAB_PAGE_SIZE as int,
                    base,
                    len,
                ) by {
                    assert(post.pages_of(idx)[p] == pre.pages_of(idx)[p]);
                }
            }
            if post.clear_of(base, len) {
                assert forall|idx: int, p: int|
                    0 <= idx < SLAB_CLASSES && 0 <= p < pre.pages_of(idx).len()
                        implies ranges_disjoint(
                    (#[trigger] pre.pages_of(idx)[p]) as int,
                    SLAB_PAGE_SIZE as int,
                    base,
                    len,
                ) by {
                    assert(post.pages_of(idx)[p] == pre.pages_of(idx)[p]);
                }
            }
        }
    }

    /// No byte in a slab page is one that the arena strategy has passed or
    /// that belongs to a large block.
    pub proof fn lemma_slab_bytes_apart(&self, a: int)
        requires
            self.wf(),
            self.slab_view().holds(a),
        ensures
            !self.arena_view().spent(a),
            !self.large_in_use(a),
    {
        let (idx, p) = choose|idx: int, p: int|
            0 <= idx < SLAB_CLASSES && 0 <= p < self.slab_view().pages_of(idx).len() && in_range(
                a,
                (#[trigger] self.slab_view().pages_of(idx)[p]) as int,
                SLAB_PAGE_SIZE as int,
            );
        let page: int = self.slab_view().pages_of(idx)[p] as int;
        if self.arena_view().spent(a) {
            let i: int = choose|i: int| self.arena_view().spent_in(i, a);
            let node: ArenaNode = self.arena_view().chain()[i];
            assert(self.slab_view().clear_of(node.data() as int, node.size() as int));
            assert(ranges_disjoint(
                page,
                SLAB_PAGE_SIZE as int,
                node.data() as int,
                node.size() as int,
            ));
        }
        if self.large_in_use(a) {
            let j: int = choose|j: int|
                0 <= j < self.large_view().len() && in_range(
                    a,
                    (#[trigger] self.large_view()[j]).ptr() as int,
                    self.large_view()[j].size() as int,
                );
            let node: LargeBlockNode = self.large_view()[j];
            assert(self.slab_view().clear_of(node.ptr() as int, node.size() as int));
            assert(ranges_disjoint(
                page,
                SLAB_PAGE_SIZE as int,
                node.ptr() as int,
                node.size() as int,
            ));
        }
    }

    /// No byte of an arena chunk belongs to a slab chunk in use or to a large
    /// block.
    pub proof fn lemma_arena_bytes_apart(&self, a: int)
        requires
            self.wf(),
            self.arena_view().holds(a),
        ensures
            !self.slab_view().in_use(a),
            !self.large_in_use(a),
    {
        let i: int = choose|i: int|
            0 <= i < self.arena_view().chain().len()
                && (#[trigger] self.arena_view().chain()[i]).contains(
                a,
            );
        let node: ArenaNode = self.arena_view().chain()[i];
        if self.slab_view().in_use(a) {
            self.slab_view().lemma_in_use_held(a);
            let (idx, p) = choose|idx: int, p: int|
                0 <= idx < SLAB_CLASSES && 0 <= p < self.slab_view().pages_of(idx).len()
                    && in_range(
                    a,
                    (#[trigger] self.slab_view().pages_of(idx)[p]) as int,
                    SLAB_PAGE_SIZE as int,
                );
            assert(self.slab_view().clear_of(node.data() as int, node.size() as int));
            assert(ranges_disjoint(
                self.slab_view().pages_of(idx)[p] as int,
                SLAB_PAGE_SIZE as int,
                node.data() as int,
                node.size() as int,
            ));
        }
        if self.large_in_use(a) {
            let j: int = choose|j: int|
                0 <= j < self.large_view().len() && in_range(
                    a,
                    (#[trigger] self.large_view()[j]).ptr() as int,
                    self.large_view()[j].size() as int,
                );
            let block: LargeBlockNode = self.large_view()[j];
            assert(self.arena_view().clear_of(block.ptr() as int, block.size() as int));
            assert(ranges_disjoint(
                node.data() as int,
                node.size() as int,
                block.ptr() as int,
                block.size() as int,
            ));
        }
    }

    /// A chunk just handed out by the slab strategy is a fresh block.
    proof fn lemma_slab_block_fresh(&self, post: &HybridAllocator, addr: usize, layout: Layout)
        requires
            self.wf(),
            post.slab_view().wf(),
            layout.wf(),
            route_of(layout) == Route::Slab,
            post.arena_view() == self.arena_view(),
            post.large_view() == self.large_view(),
            addr % SLAB_ALIGN == 0,
            post.slab_view().is_live(class_of(layout.size()).unwrap() as int, addr),
            forall|j: int|
                0 <= j < SLAB_CLASSES ==> post.slab_view().pages_of(j) == self.slab_view().pages_of(
                    j,
                ),
            SlabAllocator::chunk_taken(
                &self.slab_view(),
                &post.slab_view(),
                class_of(layout.size()).unwrap() as int,
                addr,
            ),
        ensures
            Self::block_fresh(self, post, addr, layout),
    {
        let idx: int = class_of(layout.size()).unwrap() as int;
        SlabAllocator::lemma_class_sizes();
        let cs: int = SLAB_SIZES[idx] as int;
        assert(cs >= layout.size());
        crate::layout::lemma_small_pow2_divides_16(layout.align() as int);
        crate::layout::lemma_multiple_of_divisor(addr as int, 16, layout.align() as int);
        assert forall|a: int| in_range(a, addr as int, cs) implies self.slab_view().holds(a) by {
            let p: int = choose|p: int|
                crate::slab::is_chunk_in(self.slab_view().pages_of(idx), cs, p, addr as int);
            assert(in_range(a, self.slab_view().pages_of(idx)[p] as int, SLAB_PAGE_SIZE as int));
        }
        assert forall|a: int|
            in_range(a, addr as int, layout.size() as int) implies !self.in_use(a) && post.in_use(
            a,
        ) by {
            assert(in_range(a, addr as int, cs));
            self.lemma_slab_bytes_apart(a);
        }
        let p: int = choose|p: int|
            crate::slab::is_chunk_in(self.slab_view().pages_of(idx), cs, p, addr as int);
        assert(self.slab_view().classes()[idx].unwrap().wf());
        assert(page_valid(self.slab_view().classes()[idx].unwrap().pages()[p]));
    }

    /// A block just carved by the arena strategy is a fresh block.
    proof fn lemma_arena_block_fresh(&self, post: &HybridAllocator, addr: usize, layout: Layout)
        requires
            layout.wf(),
            post.slab_view() == self.slab_view(),
            post.large_view() == self.large_view(),
            addr + layout.size() <= usize::MAX,
            layout.align() <= ARENA_ALIGN ==> addr % layout.align() == 0,
            route_of(layout) == Route::Arena,
            forall|a: int|
                #[trigger] in_range(a, addr as int, layout.size() as int)
                    ==> !self.arena_view().spent(a) && post.arena_view().spent(a),
            forall|a: int| self.arena_view().spent(a) ==> post.arena_view().spent(a),
            forall|a: int|
                #[trigger] in_range(a, addr as int, layout.size() as int)
                    ==> !self.slab_view().in_use(a) && !self.large_in_use(a),
        ensures
            Self::block_fresh(self, post, addr, layout),
    {
        assert forall|a: int|
            in_range(a, addr as int, layout.size() as int) implies !self.in_use(a) && post.in_use(
            a,
        ) by {
            assert(!self.arena_view().spent(a));
            assert(post.arena_view().spent(a));
        }
        assert forall|a: int| self.in_use(a) implies post.in_use(a) by {
            if self.arena_view().spent(a) {
                assert(post.arena_view().spent(a));
            }
        }
    }

    /// How a request is served: from the memory held, or from the memory
    /// reserved at `fresh`.
    pub open spec fn served(
        pre: &HybridAllocator,
        post: &HybridAllocator,
        layout: Layout,
        fresh: Option<usize>,
        r: Option<usize>,
    ) -> bool {
        match fresh {
            None => Self::allocate_spec(pre, post, layout, r),
            Some(memory) => Self::allocate_fresh_spec(pre, post, layout, memory, r),
        }
    }

    /// Whether the dispatcher hands out aligned blocks for `layout`: it does
    /// on the slab route and for large blocks, and on the arena route for
    /// alignments up to that of a chunk.
    pub open spec fn supported(layout: Layout) -> bool {
        route_of(layout) == Route::Arena ==> layout.align() <= ARENA_ALIGN
    }

    /// Bytes that leave use when a block of `layout` is given back: the chunk
    /// on the slab route, nothing on the arena route, and the block in the
    /// record for a large block.
    pub open spec fn released_size(layout: Layout, released: Option<LargeBlockNode>) -> int {
        match route_of(layout) {
            Route::Slab => SLAB_SIZES[class_of(layout.size()).unwrap() as int] as int,
            Route::Arena => 0,
            Route::Large => match released {
                Some(node) => node.size() as int,
                None => 0,
            },
        }
    }

    /// A block that was handed out is a fresh block, however it was served.
    pub proof fn lemma_served_block_fresh(
        pre: &HybridAllocator,
        post: &HybridAllocator,
        layout: Layout,
        fresh: Option<usize>,
        addr: usize,
    )
        requires
            Self::served(pre, post, layout, fresh, Some(addr)),
        ensures
            Self::block_fresh(pre, post, addr, layout),
    {
    }

    /// Handing out, giving back and handing out again: for every supported
    /// layout, both blocks are aligned as asked and lie in bytes that were not
    /// in use; the first block may be given back; its bytes are out of use
    /// afterwards unless the arena strategy served it; and on the slab route
    /// the memory held serves the second request with the block just given back.
    pub proof fn lemma_allocate_free_allocate(
        s0: &HybridAllocator,
        s1: &HybridAllocator,
        s2: &HybridAllocator,
        s3: &HybridAllocator,
        layout: Layout,
        fresh1: Option<usize>,
        first: usize,
        released: Option<LargeBlockNode>,
        fresh2: Option<usize>,
        second: usize,
    )
        requires
            s0.wf(),
            s1.wf(),
            layout.wf(),
            Self::supported(layout),
            Self::served(s0, s1, layout, fresh1, Some(first)),
            Self::deallocate_spec(s1, s2, first, layout, released),
            Self::served(s2, s3, layout, fresh2, Some(second)),
        ensures
            first % layout.align() == 0,
            second % layout.align() == 0,
            s1.can_free(first, layout),
            forall|a: int|
                in_range(a, first as int, layout.size() as int) ==> !s0.in_use(a) && s1.in_use(a),
            forall|a: int|
                in_range(a, second as int, layout.size() as int) ==> !s2.in_use(a) && s3.in_use(a),
            route_of(layout) != Route::Arena ==> forall|a: int|
                in_range(a, first as int, layout.size() as int) ==> !s2.in_use(a),
            route_of(layout) == Route::Slab ==> s2.slab_view().free_of(
                class_of(layout.size()).unwrap() as int,
            ).len() > 0,
            route_of(layout) == Route::Slab && fresh2.is_none() ==> second == first,
    {
        Self::lemma_served_block_fresh(s0, s1, layout, fresh1, first);
        Self::lemma_served_block_fresh(s2, s3, layout, fresh2, second);
        crate::layout::Layout::lemma_align_positive(layout);
        match route_of(layout) {
            Route::Slab => {
                let idx: int = class_of(layout.size()).unwrap() as int;
                SlabAllocator::lemma_class_sizes();
                let free: Seq<usize> = s1.slab_view().free_of(idx);
                assert(s2.slab_view().free_of(idx) == free.push(first));
                assert(free.push(first).last() == first);
                assert forall|a: int|
                    in_range(a, first as int, layout.size() as int) implies !s2.in_use(a) by {
                    assert(in_range(a, first as int, SLAB_SIZES[idx] as int));
                }
            },
            Route::Arena => {},
            Route::Large => {
                assert(s1.large_in_use(first as int)) by {
                    assert(in_range(first as int, first as int, layout.size() as int));
                    assert(s1.in_use(first as int));
                    assert(!s0.in_use(first as int));
                    match fresh1 {
                        None => {},
                        Some(memory) => {
                            assert(s1.arena_view() == s0.arena_view());
                            assert(s1.slab_view() == s0.slab_view());
                        },
                    }
                }
                s1.lemma_tracked_block(first, layout);
            },
        }
    }

    /// A large block that was handed out at `ptr` for `layout` has its record:
    /// where a byte of the block is in use as part of a large block and the
    /// block was recorded last, the record is found by its address.
    proof fn lemma_tracked_block(&self, ptr: usize, layout: Layout)
        requires
            self.wf(),
            self.large_view().len() > 0,
            self.large_view().last().ptr() == ptr,
            self.large_view().last().size() == layout.size(),
        ensures
            self.tracks(ptr),
            self.large_view()[self.position(ptr)].size() == layout.size(),
    {
        let n: int = self.large_view().len() - 1;
        assert(self.large_view()[n].ptr() == ptr);
        let p: int = self.position(ptr);
        assert(self.large_view()[p].wf());
        assert(self.large_view()[n].wf());
        if p < n {
            assert(ranges_disjoint(
                self.large_view()[p].ptr() as int,
                self.large_view()[p].size() as int,
                self.large_view()[n].ptr() as int,
                self.large_view()[n].size() as int,
            ));
        }
    }

    /// No live block is touched by a later allocation: a range whose bytes
    /// are all in use shares no byte with a block that is handed out next,
    /// and its bytes stay in use.
    pub proof fn lemma_live_block_kept_by_allocate(
        pre: &HybridAllocator,
        post: &HybridAllocator,
        layout: Layout,
        fresh: Option<usize>,
        addr: usize,
        base: int,
        len: int,
    )
        requires
            Self::served(pre, post, layout, fresh, Some(addr)),
            forall|a: int| in_range(a, base, len) ==> pre.in_use(a),
        ensures
            ranges_disjoint(base, len, addr as int, layout.size() as int),
            forall|a: int| in_range(a, base, len) ==> post.in_use(a),
    {
        Self::lemma_served_block_fresh(pre, post, layout, fresh, addr);
        if !ranges_disjoint(base, len, addr as int, layout.size() as int) {
            let a: int = if base >= addr {
                base
            } else {
                addr as int
            };
            assert(in_range(a, base, len) && in_range(a, addr as int, layout.size() as int));
            assert(pre.in_use(a));
        }
        assert forall|a: int| in_range(a, base, len) implies post.in_use(a) by {
            assert(pre.in_use(a));
        }
    }

    /// Two blocks handed out one after the other share no byte.
    pub proof fn lemma_successive_blocks_apart(
        s0: &HybridAllocator,
        s1: &HybridAllocator,
        s2: &HybridAllocator,
        layout1: Layout,
        fresh1: Option<usize>,
        first: usize,
        layout2: Layout,
        fresh2: Option<usize>,
        second: usize,
    )
        requires
            Self::served(s0, s1, layout1, fresh1, Some(first)),
            Self::served(s1, s2, layout2, fresh2, Some(second)),
        ensures
            ranges_disjoint(
                first as int,
                layout1.size() as int,
                second as int,
                layout2.size() as int,
            ),
    {
        Self::lemma_served_block_fresh(s0, s1, layout1, fresh1, first);
        Self::lemma_live_block_kept_by_allocate(
            s1,
            s2,
            layout2,
            fresh2,
            second,
            first as int,
            layout1.size() as int,
        );
    }

    /// No live block is touched when another block is given back: a range
    /// whose bytes are all in use, and that shares no byte with what is given
    /// back, stays in use.
    pub proof fn lemma_live_block_kept_by_deallocate(
        pre: &HybridAllocator,
        post: &HybridAllocator,
        ptr: usize,
        layout: Layout,
        released: Option<LargeBlockNode>,
        base: int,
        len: int,
    )
        requires
            Self::deallocate_spec(pre, post, ptr, layout, released),
            forall|a: int| in_range(a, base, len) ==> pre.in_use(a),
            ranges_disjoint(base, len, ptr as int, Self::released_size(layout, released)),
        ensures
            forall|a: int| in_range(a, base, len) ==> post.in_use(a),
    {
        assert forall|a: int| in_range(a, base, len) implies post.in_use(a) by {
            assert(pre.in_use(a));
        }
    }
}

} // verus!
