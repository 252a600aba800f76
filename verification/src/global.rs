//! The global handle: the one dispatcher that serves a whole process.
//!
//! The handle is built once, before anything is allocated, and lives as long
//! as the process. It adds nothing to the dispatcher: the program that
//! installs it keeps one of it, and reserves and releases the memory.

use crate::hybrid::{HybridAllocator, LargeBlockNode};
use crate::layout::Layout;
use vstd::prelude::*;

verus! {

/// The handle over the process's dispatcher.
pub struct GlobalCustomAllocator {
    allocator: HybridAllocator,
}

impl GlobalCustomAllocator {
    /// The dispatcher behind the handle.
    pub closed spec fn state(&self) -> HybridAllocator {
        self.allocator
    }

    /// The handle is well formed when its dispatcher is.
    pub open spec fn wf(&self) -> bool {
        self.state().wf()
    }

    /// A handle whose dispatcher holds no memory.
    pub fn new() -> (r: GlobalCustomAllocator)
        ensures
            r.wf(),
            r.state().arena_view().chain().len() == 0,
            r.state().large_view().len() == 0,
    {
        GlobalCustomAllocator { allocator: HybridAllocator::new() }
    }

    /// Serves `layout` from the memory held; `None` where fresh memory is
    /// needed first.
    pub fn allocate(&mut self, layout: Layout) -> (r: Option<usize>)
        requires
            old(self).wf(),
            layout.wf(),
        ensures
            final(self).wf(),
            HybridAllocator::allocate_spec(&old(self).state(), &final(self).state(), layout, r),
    {
        self.allocator.allocate(layout)
    }

    /// Serves `layout` from the memory reserved at `fresh`, which the
    /// dispatcher keeps; `None`, with nothing changed, where it cannot take it.
    pub fn allocate_fresh(&mut self, layout: Layout, fresh: usize) -> (r: Option<usize>)
        requires
            old(self).wf(),
            layout.wf(),
        ensures
            final(self).wf(),
            HybridAllocator::allocate_fresh_spec(
                &old(self).state(),
                &final(self).state(),
                layout,
                fresh,
                r,
            ),
    {
        self.allocator.allocate_fresh(layout, fresh)
    }

    /// Gives the block at `ptr` back; the result is the record of a large
    /// block that the caller is to release.
    pub fn dealloc(&mut self, ptr: usize, layout: Layout) -> (r: Option<LargeBlockNode>)
        requires
            old(self).wf(),
            layout.wf(),
            old(self).state().can_free(ptr, layout),
        ensures
            final(self).wf(),
            HybridAllocator::deallocate_spec(
                &old(self).state(),
                &final(self).state(),
                ptr,
                layout,
                r,
            ),
    {
        self.allocator.deallocate(ptr, layout)
    }

    /// Tests what `dealloc` asks of its caller.
    pub fn can_dealloc(&self, ptr: usize, layout: Layout) -> (r: bool)
        requires
            self.wf(),
            layout.wf(),
        ensures
            r == self.state().can_free(ptr, layout),
    {
        self.allocator.can_deallocate(ptr, layout)
    }

    /// The dispatcher behind the handle.
    pub fn allocator(&self) -> (r: &HybridAllocator)
        ensures
            *r == self.state(),
    {
        &self.allocator
    }
}

} // verus!
