//! The arena strategy: bump-pointer allocation over a chain of fixed-size chunks.
//!
//! Blocks are carved from the newest chunk by advancing one cursor. Nothing is
//! ever handed back: when a request does not fit, a fresh chunk is linked, the
//! cursor restarts at zero, and what was left of the previous chunk stays unused.

use crate::layout::{
    in_range, lemma_multiple_of_divisor, lemma_round_up, lemma_small_pow2_divides_16,
    lemma_sum_of_multiples, ranges_disjoint, ranges_overlap, round_up, Layout,
};
use vstd::prelude::*;

verus! {

/// Capacity of every chunk that the arena strategy links: 4 MiB.
pub const ARENA_SIZE: usize = 4194304;

/// Alignment of a chunk's first byte.
pub const ARENA_ALIGN: usize = 16;

/// One chunk of the chain: `size` bytes of reserved memory starting at `data`.
#[derive(Clone, Copy, Debug)]
pub struct ArenaNode {
    data: usize,
    size: usize,
}

impl ArenaNode {
    /// Address of the chunk's first byte.
    pub closed spec fn spec_data(&self) -> usize {
        self.data
    }

    /// Capacity of the chunk in bytes.
    pub closed spec fn spec_size(&self) -> usize {
        self.size
    }

    /// What makes `size` bytes at `data` a chunk: a non-null address aligned to
    /// `ARENA_ALIGN`, and an end that the address space can hold.
    pub open spec fn valid(data: usize, size: usize) -> bool {
        &&& data != 0
        &&& data % ARENA_ALIGN == 0
        &&& data + size <= usize::MAX
    }

    /// Every chunk that this library describes is valid.
    pub open spec fn wf(&self) -> bool {
        Self::valid(self.spec_data(), self.spec_size())
    }

    /// Whether `addr` is one of the chunk's bytes.
    pub open spec fn contains(&self, addr: int) -> bool {
        in_range(addr, self.spec_data() as int, self.spec_size() as int)
    }

    /// Describes the chunk of `size` bytes reserved at `data`; `None` where the
    /// reservation failed (a null address) or cannot serve as a chunk.
    pub fn new(data: usize, size: usize) -> (r: Option<ArenaNode>)
        ensures
            r.is_some() <==> Self::valid(data, size),
            r matches Some(node) ==> node.wf() && node.spec_data() == data && node.spec_size()
                == size,
    {
        if data == 0 || data % ARENA_ALIGN != 0 || size > usize::MAX - data {
            None
        } else {
            Some(ArenaNode { data, size })
        }
    }

    /// Address of the chunk's first byte.
    #[verifier::when_used_as_spec(spec_data)]
    pub fn data(&self) -> (r: usize)
        ensures
            r == self.spec_data(),
    {
        self.data
    }

    /// Capacity of the chunk in bytes.
    #[verifier::when_used_as_spec(spec_size)]
    pub fn size(&self) -> (r: usize)
        ensures
            r == self.spec_size(),
    {
        self.size
    }
}

/// The bump allocator: a chain of chunks, oldest first, and the cursor into the
/// newest one.
pub struct ArenaAllocator {
    arenas: Vec<ArenaNode>,
    current_offset: usize,
}

impl ArenaAllocator {
    /// The chain of chunks, oldest first; the last one is current.
    pub closed spec fn chain(&self) -> Seq<ArenaNode> {
        self.arenas@
    }

    /// The cursor: how many bytes of the current chunk are consumed.
    pub closed spec fn offset(&self) -> usize {
        self.current_offset
    }

    /// The chunk that allocations are carved from.
    pub open spec fn current(&self) -> ArenaNode
        recommends
            self.chain().len() > 0,
    {
        self.chain().last()
    }

    /// The chain's invariant: every chunk is valid, no two chunks share a byte,
    /// and the cursor never passes the end of the current chunk.
    pub open spec fn wf(&self) -> bool {
        &&& forall|i: int| 0 <= i < self.chain().len() ==> (#[trigger] self.chain()[i]).wf()
        &&& forall|i: int, j: int|
            0 <= i < j < self.chain().len() ==> ranges_disjoint(
                (#[trigger] self.chain()[i]).data() as int,
                self.chain()[i].size() as int,
                (#[trigger] self.chain()[j]).data() as int,
                self.chain()[j].size() as int,
            )
        &&& self.chain().len() == 0 ==> self.offset() == 0
        &&& self.chain().len() > 0 ==> self.offset() <= self.current().size()
    }

    /// Whether `addr` is a byte of chunk `i` that can no longer be handed out:
    /// any byte of a retired chunk, or a byte before the cursor of the current one.
    pub open spec fn spent_in(&self, i: int, addr: int) -> bool {
        &&& 0 <= i < self.chain().len()
        &&& self.chain()[i].data() <= addr
        &&& if i == self.chain().len() - 1 {
            addr < self.chain()[i].data() + self.offset()
        } else {
            addr < self.chain()[i].data() + self.chain()[i].size()
        }
    }

    /// Whether `addr` can no longer be handed out.
    pub open spec fn spent(&self, addr: int) -> bool {
        exists|i: int| self.spent_in(i, addr)
    }

    /// Whether `addr` is a byte of one of the chunks.
    pub open spec fn holds(&self, addr: int) -> bool {
        exists|i: int| 0 <= i < self.chain().len() && (#[trigger] self.chain()[i]).contains(addr)
    }

    /// Whether none of the chunks shares a byte with `[base, base + len)`.
    pub open spec fn clear_of(&self, base: int, len: int) -> bool {
        forall|i: int|
            0 <= i < self.chain().len() ==> ranges_disjoint(
                (#[trigger] self.chain()[i]).data() as int,
                self.chain()[i].size() as int,
                base,
                len,
            )
    }

    /// Whether the current chunk has room for `layout` after the cursor.
    pub open spec fn fits(&self, layout: Layout) -> bool {
        &&& self.chain().len() > 0
        &&& round_up(self.offset() as int, layout.align() as int) + layout.size()
            <= self.current().size()
    }

    /// Whether a chunk reserved at `data` can be linked: it is a valid chunk of
    /// `ARENA_SIZE` bytes that shares no byte with the chain.
    pub open spec fn accepts(&self, data: usize) -> bool {
        &&& ArenaNode::valid(data, ARENA_SIZE)
        &&& self.clear_of(data as int, ARENA_SIZE as int)
    }

    /// An allocator without chunks.
    pub fn new() -> (r: ArenaAllocator)
        ensures
            r.wf(),
            r.chain().len() == 0,
            r.offset() == 0,
    {
        ArenaAllocator { arenas: Vec::new(), current_offset: 0 }
    }

    /// Carves a block for `layout` from the current chunk: the cursor is rounded
    /// up to the alignment, the block starts there, and the cursor moves to its
    /// end. `None`, with nothing changed, where there is no chunk yet or the
    /// block would pass the end of the current one: a new chunk is then needed.
    pub fn allocate(&mut self, layout: Layout) -> (r: Option<usize>)
        requires
            old(self).wf(),
            layout.wf(),
        ensures
            final(self).wf(),
            final(self).chain() == old(self).chain(),
            r.is_some() <==> old(self).fits(layout),
            r matches Some(addr) ==> {
                &&& addr == old(self).current().data() + round_up(
                    old(self).offset() as int,
                    layout.align() as int,
                )
                &&& final(self).offset() == round_up(
                    old(self).offset() as int,
                    layout.align() as int,
                ) + layout.size()
            },
            r.is_none() ==> final(self).offset() == old(self).offset(),
            r matches Some(addr) ==> {
                &&& old(self).current().data() <= addr
                &&& addr + layout.size() <= old(self).current().data() + old(self).current().size()
                &&& (addr - old(self).current().data()) % (layout.align() as int) == 0
                &&& layout.align() <= ARENA_ALIGN ==> addr % layout.align() == 0
                &&& forall|a: int|
                    in_range(a, addr as int, layout.size() as int) ==> !old(self).spent(a)
                        && final(self).spent(a)
            },
            forall|a: int| old(self).spent(a) ==> final(self).spent(a),
    {
        let n: usize = self.arenas.len();
        if n == 0 {
            return None;
        }
        let arena: ArenaNode = self.arenas[n - 1];
        let offset: usize = self.current_offset;
        let align: usize = layout.align();
        let size: usize = layout.size();
        proof {
            layout.lemma_align_positive();
        }
        let rem: usize = offset % align;
        let pad: usize = if rem == 0 {
            0
        } else {
            align - rem
        };
        if pad > arena.size() - offset {
            return None;
        }
        let aligned_offset: usize = offset + pad;
        if size > arena.size() - aligned_offset {
            return None;
        }
        self.current_offset = aligned_offset + size;
        let addr: usize = arena.data() + aligned_offset;
        proof {
            let last: int = n - 1;
            lemma_round_up(offset as int, align as int);
            if align <= ARENA_ALIGN {
                lemma_small_pow2_divides_16(align as int);
                lemma_multiple_of_divisor(arena.data() as int, 16, align as int);
                lemma_sum_of_multiples(arena.data() as int, aligned_offset as int, align as int);
            }
            assert forall|a: int| in_range(a, addr as int, size as int) implies !old(self).spent(
                a,
            ) && self.spent(a) by {
                assert(self.spent_in(last, a));
                assert forall|i: int| !old(self).spent_in(i, a) by {
                    if 0 <= i < last {
                        assert(ranges_disjoint(
                            old(self).chain()[i].data() as int,
                            old(self).chain()[i].size() as int,
                            old(self).chain()[last].data() as int,
                            old(self).chain()[last].size() as int,
                        ));
                    }
                }
            }
            assert forall|a: int| old(self).spent(a) implies self.spent(a) by {
                let i: int = choose|i: int| old(self).spent_in(i, a);
                assert(self.spent_in(i, a));
            }
        }
        Some(addr)
    }

    /// Links the chunk of `ARENA_SIZE` bytes reserved at `data` and makes it
    /// current, with the cursor at zero. A chunk that is null, misaligned, too
    /// close to the end of the address space or overlapping the chain is refused,
    /// and nothing changes.
    pub fn create_arena(&mut self, data: usize) -> (r: bool)
        requires
            old(self).wf(),
        ensures
            final(self).wf(),
            r == old(self).accepts(data),
            r ==> {
                &&& final(self).chain().len() == old(self).chain().len() + 1
                &&& final(self).chain().drop_last() == old(self).chain()
                &&& final(self).current().data() == data
                &&& final(self).current().size() == ARENA_SIZE
                &&& final(self).offset() == 0
            },
            !r ==> final(self).chain() == old(self).chain()
                && final(self).offset() == old(self).offset(),
            forall|a: int| old(self).spent(a) ==> final(self).spent(a),
            r ==> forall|a: int|
                in_range(a, data as int, ARENA_SIZE as int) ==> !final(self).spent(a),
    {
        let node: ArenaNode = match ArenaNode::new(data, ARENA_SIZE) {
            Some(node) => node,
            None => {
                return false;
            },
        };
        if self.overlaps(data, ARENA_SIZE) {
            return false;
        }
        self.arenas.push(node);
        self.current_offset = 0;
        proof {
            assert(self.chain().drop_last() =~= old(self).chain());
            assert forall|a: int| old(self).spent(a) implies self.spent(a) by {
                let i: int = choose|i: int| old(self).spent_in(i, a);
                assert(self.chain()[i] == old(self).chain()[i]);
                assert(self.spent_in(i, a));
            }
            assert forall|a: int|
                in_range(a, data as int, ARENA_SIZE as int) implies !self.spent(a) by {
                assert forall|i: int| !self.spent_in(i, a) by {
                    if 0 <= i < old(self).chain().len() {
                        assert(self.chain()[i] == old(self).chain()[i]);
                        assert(ranges_disjoint(
                            old(self).chain()[i].data() as int,
                            old(self).chain()[i].size() as int,
                            data as int,
                            ARENA_SIZE as int,
                        ));
                    }
                }
            }
        }
        true
    }

    /// Allocators with the same chain and cursor have passed the same bytes.
    pub proof fn lemma_same_spent(pre: &ArenaAllocator, post: &ArenaAllocator)
        requires
            post.chain() == pre.chain(),
            post.offset() == pre.offset(),
        ensures
            forall|a: int| post.spent(a) == pre.spent(a),
    {
        assert forall|a: int| post.spent(a) == pre.spent(a) by {
            if pre.spent(a) {
                let i: int = choose|i: int| pre.spent_in(i, a);
                assert(post.spent_in(i, a));
            }
            if post.spent(a) {
                let i: int = choose|i: int| post.spent_in(i, a);
                assert(pre.spent_in(i, a));
            }
        }
    }

    /// Every byte that was passed lies in a chunk.
    pub proof fn lemma_spent_held(&self, a: int)
        requires
            self.wf(),
            self.spent(a),
        ensures
            self.holds(a),
    {
        let i: int = choose|i: int| self.spent_in(i, a);
        assert(self.chain()[i].contains(a));
    }

    /// Tests whether any chunk shares a byte with `[base, base + len)`.
    pub fn overlaps(&self, base: usize, len: usize) -> (r: bool)
        requires
            self.wf(),
            base + len <= usize::MAX,
        ensures
            r == !self.clear_of(base as int, len as int),
    {
        let mut i: usize = 0;
        while i < self.arenas.len()
            invariant
                self.wf(),
                base + len <= usize::MAX,
                0 <= i <= self.arenas.len(),
                forall|k: int|
                    0 <= k < i ==> ranges_disjoint(
                        (#[trigger] self.chain()[k]).data() as int,
                        self.chain()[k].size() as int,
                        base as int,
                        len as int,
                    ),
            decreases self.arenas.len() - i,
        {
            let node: ArenaNode = self.arenas[i];
            if ranges_overlap(node.data(), node.size(), base, len) {
                return true;
            }
            i += 1;
        }
        false
    }

    /// Number of chunks linked so far.
    pub fn arena_count(&self) -> (r: usize)
        ensures
            r == self.chain().len(),
    {
        self.arenas.len()
    }

    /// The cursor into the current chunk.
    pub fn current_offset(&self) -> (r: usize)
        ensures
            r == self.offset(),
    {
        self.current_offset
    }
}

} // verus!
