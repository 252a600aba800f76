//! The buddy strategy: power-of-two blocks split from, and merged back into,
//! one reserved region.
//!
//! Order `k` stands for blocks of `4096 << k` bytes, for `k` from 0 to 11. The
//! region starts out as a single free block. Allocation takes a free block of
//! the smallest sufficient order and splits it down to the order needed;
//! deallocation merges a block with its buddy, the block whose offset differs
//! only in the bit of their order, as long as that buddy is free.
//!
//! The strategy stands on its own: the dispatcher does not route to it.

use crate::layout::{in_range, lemma_multiples_apart, ranges_disjoint, ranges_overlap, Layout};
use vstd::prelude::*;

verus! {

/// The highest order.
pub const MAX_ORDER: usize = 11;

/// Number of orders.
pub const ORDER_COUNT: usize = 12;

/// Bytes in a block of order 0.
pub const MIN_BLOCK_SIZE: usize = 4096;

/// Bytes in a block of the highest order: 8 MiB.
pub const MAX_BLOCK_SIZE: usize = 8388608;

/// Bytes in a block of `order`: 4096 doubled `order` times.
pub open spec fn block_size(order: int) -> int
    decreases order,
{
    if order <= 0 {
        4096
    } else {
        2 * block_size(order - 1)
    }
}

/// The block sizes of all twelve orders.
pub proof fn lemma_block_sizes()
    ensures
        block_size(0) == 4096,
        block_size(1) == 8192,
        block_size(2) == 16384,
        block_size(3) == 32768,
        block_size(4) == 65536,
        block_size(5) == 131072,
        block_size(6) == 262144,
        block_size(7) == 524288,
        block_size(8) == 1048576,
        block_size(9) == 2097152,
        block_size(10) == 4194304,
        block_size(11) == 8388608,
{
    reveal_with_fuel(block_size, 13);
}

/// Block sizes are positive, grow with the order, and each divides the larger ones.
pub proof fn lemma_block_size_order(low: int, high: int)
    requires
        0 <= low <= high,
    ensures
        0 < block_size(low) <= block_size(high),
        block_size(high) % block_size(low) == 0,
    decreases high - low,
{
    if low == high {
        lemma_block_size_positive(low);
        vstd::arithmetic::div_mod::lemma_mod_self_0(block_size(low));
    } else {
        lemma_block_size_order(low, high - 1);
        let d: int = block_size(low);
        let h: int = block_size(high - 1);
        assert(block_size(high) == h + h);
        crate::layout::lemma_sum_of_multiples(h, h, d);
    }
}

/// Every block size is at least 4096.
pub proof fn lemma_block_size_positive(order: int)
    ensures
        block_size(order) >= 4096,
    decreases order,
{
    if order > 0 {
        lemma_block_size_positive(order - 1);
    }
}

/// The least order, of those up to 11, whose blocks hold `size` bytes, counted
/// up from `order`; 11 where none does.
pub open spec fn order_from(size: int, order: int) -> int
    decreases 11 - order,
{
    if order >= 11 || block_size(order) >= size {
        order
    } else {
        order_from(size, order + 1)
    }
}

/// The order that serves a request of `size` bytes.
pub open spec fn order_of(size: int) -> int {
    order_from(size, 0)
}

/// What `order_from` finds: an order between the start and 11, whose blocks
/// hold `size` bytes unless it is 11, while no lower order from the start does.
pub proof fn lemma_order_from(size: int, order: int)
    requires
        0 <= order <= 11,
    ensures
        order <= order_from(size, order) <= 11,
        order_from(size, order) < 11 ==> block_size(order_from(size, order)) >= size,
        forall|j: int| order <= j < order_from(size, order) ==> block_size(j) < size,
    decreases 11 - order,
{
    if order < 11 && block_size(order) < size {
        lemma_order_from(size, order + 1);
    }
}

/// Computes the block size of `order` by shifting.
pub fn block_size_of(order: usize) -> (r: usize)
    requires
        order <= MAX_ORDER,
    ensures
        r == block_size(order as int),
{
    proof {
        lemma_block_sizes();
        assert(4096usize << 0usize == 4096usize && 4096usize << 1usize == 8192usize && 4096usize
            << 2usize == 16384usize && 4096usize << 3usize == 32768usize && 4096usize << 4usize
            == 65536usize && 4096usize << 5usize == 131072usize && 4096usize << 6usize
            == 262144usize && 4096usize << 7usize == 524288usize && 4096usize << 8usize
            == 1048576usize && 4096usize << 9usize == 2097152usize && 4096usize << 10usize
            == 4194304usize && 4096usize << 11usize == 8388608usize) by (bit_vector);
    }
    MIN_BLOCK_SIZE << order
}

/// The offset of the buddy of the block of `order` at offset `off`: the other half
/// of the block of the next order that holds both.
pub open spec fn buddy_offset(off: int, order: int) -> int {
    if (off / block_size(order)) % 2 == 0 {
        off + block_size(order)
    } else {
        off - block_size(order)
    }
}

/// Flipping the bit of a power of two in a number whose lower bits are zero
/// adds the power where the bit was clear and subtracts it where it was set.
proof fn lemma_xor_flips_bit(off: usize, size: usize)
    by (bit_vector)
    requires
        size == 4096 || size == 8192 || size == 16384 || size == 32768 || size == 65536 || size
            == 131072 || size == 262144 || size == 524288 || size == 1048576 || size == 2097152
            || size == 4194304 || size == 8388608,
        off & (size - 1) as usize == 0,
        off <= 16777216,
    ensures
        (off ^ size) == (if off & size == 0 {
            off + size
        } else {
            off - size
        }),
{
}

/// For each block size: a multiple of it has its lower bits zero, and its bit
/// of the block size is clear exactly when the multiple is an even one.
proof fn lemma_multiple_bits(off: usize)
    by (bit_vector)
    ensures
        off % 4096 == 0 ==> (off & 4095 == 0 && ((off & 4096 == 0) <==> (off / 4096) % 2 == 0)),
        off % 8192 == 0 ==> (off & 8191 == 0 && ((off & 8192 == 0) <==> (off / 8192) % 2 == 0)),
        off % 16384 == 0 ==> (off & 16383 == 0 && ((off & 16384 == 0) <==> (off / 16384) % 2 == 0)),
        off % 32768 == 0 ==> (off & 32767 == 0 && ((off & 32768 == 0) <==> (off / 32768) % 2 == 0)),
        off % 65536 == 0 ==> (off & 65535 == 0 && ((off & 65536 == 0) <==> (off / 65536) % 2 == 0)),
        off % 131072 == 0 ==> (off & 131071 == 0 && ((off & 131072 == 0)
            <==> (off / 131072) % 2 == 0)),
        off % 262144 == 0 ==> (off & 262143 == 0 && ((off & 262144 == 0)
            <==> (off / 262144) % 2 == 0)),
        off % 524288 == 0 ==> (off & 524287 == 0 && ((off & 524288 == 0)
            <==> (off / 524288) % 2 == 0)),
        off % 1048576 == 0 ==> (off & 1048575 == 0 && ((off & 1048576 == 0)
            <==> (off / 1048576) % 2 == 0)),
        off % 2097152 == 0 ==> (off & 2097151 == 0 && ((off & 2097152 == 0)
            <==> (off / 2097152) % 2 == 0)),
        off % 4194304 == 0 ==> (off & 4194303 == 0 && ((off & 4194304 == 0)
            <==> (off / 4194304) % 2 == 0)),
        off % 8388608 == 0 ==> (off & 8388607 == 0 && ((off & 8388608 == 0)
            <==> (off / 8388608) % 2 == 0)),
{
}

/// On offsets that are multiples of the block size, flipping the bit of the
/// block size gives the buddy's offset.
pub proof fn lemma_xor_is_buddy(off: usize, order: int)
    requires
        0 <= order <= MAX_ORDER,
        off % (block_size(order) as usize) == 0,
        off <= 16777216,
    ensures
        (off ^ (block_size(order) as usize)) == buddy_offset(off as int, order),
{
    lemma_block_sizes();
    lemma_multiple_bits(off);
    lemma_xor_flips_bit(off, block_size(order) as usize);
}

/// The list `s` without its entry `x`.
pub open spec fn without(s: Seq<usize>, x: usize) -> Seq<usize> {
    s.remove(s.index_of(x))
}

/// The buddy allocator: the free blocks of each order, most recently freed
/// last, within the region of `total_size` bytes at `base_ptr`.
pub struct BuddyAllocator {
    orders: Vec<Vec<usize>>,
    base_ptr: usize,
    total_size: usize,
}

impl BuddyAllocator {
    /// Number of free lists.
    pub closed spec fn list_count(&self) -> int {
        self.orders@.len() as int
    }

    /// The free blocks of `order`, by address; the last one is taken first.
    pub closed spec fn free(&self, order: int) -> Seq<usize> {
        self.orders@[order]@
    }

    /// Address of the region's first byte.
    pub closed spec fn base(&self) -> usize {
        self.base_ptr
    }

    /// Bytes in the region.
    pub closed spec fn total(&self) -> usize {
        self.total_size
    }

    /// Whether `addr` is where a block of `order` can start: inside the region,
    /// at a multiple of the block size from its base.
    pub open spec fn is_block(&self, addr: int, order: int) -> bool {
        &&& 0 <= order <= MAX_ORDER
        &&& self.base() <= addr
        &&& (addr - self.base()) % block_size(order) == 0
        &&& addr + block_size(order) <= self.base() + self.total()
    }

    /// Whether the block of `order` at `addr` is on the free list of its order.
    pub open spec fn is_free_block(&self, addr: int, order: int) -> bool {
        exists|i: int| 0 <= i < self.free(order).len() && #[trigger] self.free(order)[i] == addr
    }

    /// Whether the byte at `addr` lies in free block `i` of order `k`.
    pub open spec fn free_at(&self, k: int, i: int, addr: int) -> bool {
        &&& 0 <= k < ORDER_COUNT
        &&& 0 <= i < self.free(k).len()
        &&& in_range(addr, self.free(k)[i] as int, block_size(k))
    }

    /// Whether the byte at `addr` lies in a free block.
    pub open spec fn is_free(&self, addr: int) -> bool {
        exists|k: int, i: int| self.free_at(k, i, addr)
    }

    /// Whether the byte at `addr` lies in the region and in no free block, so
    /// that it belongs to a block that is handed out.
    pub open spec fn in_use(&self, addr: int) -> bool {
        in_range(addr, self.base() as int, self.total() as int) && !self.is_free(addr)
    }

    /// Whether the block of `order` at `addr` shares no byte with a free block.
    pub open spec fn clear(&self, addr: int, order: int) -> bool {
        forall|k: int, i: int|
            0 <= k < ORDER_COUNT && 0 <= i < self.free(k).len() ==> ranges_disjoint(
                (#[trigger] self.free(k)[i]) as int,
                block_size(k),
                addr,
                block_size(order),
            )
    }

    /// What makes `size` bytes at `base` a region: a non-null base aligned to
    /// the largest block size, a size that is exactly one block size, and an
    /// end that the address space can hold.
    pub open spec fn region_valid(base: usize, size: usize) -> bool {
        &&& base != 0
        &&& base % MAX_BLOCK_SIZE == 0
        &&& size == block_size(order_of(size as int))
        &&& base + size <= usize::MAX
    }

    /// The invariant: twelve lists over a valid region; every free block starts
    /// where a block of its order can; and no two free blocks share a byte.
    pub open spec fn wf(&self) -> bool {
        &&& self.list_count() == ORDER_COUNT
        &&& Self::region_valid(self.base(), self.total())
        &&& forall|k: int, i: int|
            0 <= k < ORDER_COUNT && 0 <= i < self.free(k).len() ==> self.is_block(
                (#[trigger] self.free(k)[i]) as int,
                k,
            )
        &&& forall|k1: int, i1: int, k2: int, i2: int|
            0 <= k1 < ORDER_COUNT && 0 <= i1 < self.free(k1).len() && 0 <= k2 < ORDER_COUNT && 0
                <= i2 < self.free(k2).len() && (k1 != k2 || i1 != i2) ==> ranges_disjoint(
                (#[trigger] self.free(k1)[i1]) as int,
                block_size(k1),
                (#[trigger] self.free(k2)[i2]) as int,
                block_size(k2),
            )
    }

    /// Whether two allocators manage the same region.
    pub open spec fn same_region(&self, other: &BuddyAllocator) -> bool {
        &&& self.list_count() == other.list_count()
        &&& self.base() == other.base()
        &&& self.total() == other.total()
    }

    /// Whether every list but that of `order` is the same in both allocators.
    pub open spec fn same_lists_but(&self, other: &BuddyAllocator, order: int) -> bool {
        forall|k: int| 0 <= k < ORDER_COUNT && k != order ==> self.free(k) == other.free(k)
    }

    /// Sets the allocator up over the region of `size` bytes reserved at
    /// `base_ptr`, as one free block of the order of `size`. `None` where the
    /// base is null or not aligned to the largest block size, where `size` is not
    /// exactly a block size, or where the region would pass the end of the
    /// address space.
    pub fn new(base_ptr: usize, size: usize) -> (r: Option<BuddyAllocator>)
        ensures
            r.is_some() <==> Self::region_valid(base_ptr, size),
            r matches Some(a) ==> {
                &&& a.wf()
                &&& a.base() == base_ptr
                &&& a.total() == size
                &&& a.free(order_of(size as int)) == seq![base_ptr]
                &&& forall|k: int|
                    0 <= k < ORDER_COUNT && k != order_of(size as int) ==> a.free(k).len() == 0
            },
    {
        if base_ptr == 0 || base_ptr % MAX_BLOCK_SIZE != 0 || size > usize::MAX - base_ptr {
            return None;
        }
        let mut orders: Vec<Vec<usize>> = Vec::new();
        let mut k: usize = 0;
        while k < ORDER_COUNT
            invariant
                0 <= k <= ORDER_COUNT,
                orders@.len() == k,
                forall|j: int| 0 <= j < k ==> (#[trigger] orders@[j])@.len() == 0,
            decreases ORDER_COUNT - k,
        {
            orders.push(Vec::new());
            k += 1;
        }
        let mut allocator: BuddyAllocator = BuddyAllocator { orders, base_ptr, total_size: size };
        let max_order: usize = allocator.size_to_order(size);
        if block_size_of(max_order) != size {
            return None;
        }
        allocator.orders[max_order].push(base_ptr);
        proof {
            let m: int = max_order as int;
            assert(allocator.free(m) =~= seq![base_ptr]);
            vstd::arithmetic::div_mod::lemma_small_mod(0, block_size(m) as nat);
            assert forall|k: int| 0 <= k < ORDER_COUNT && k != m implies (#[trigger] allocator.free(
                k,
            )).len() == 0 by {
                assert(allocator.orders@[k] == orders@[k]);
            }
        }
        Some(allocator)
    }

    /// The least order whose blocks hold `size` bytes; 11 where `size` is
    /// above the largest block.
    pub fn size_to_order(&self, size: usize) -> (r: usize)
        ensures
            r == order_of(size as int),
            r <= MAX_ORDER,
            size <= MAX_BLOCK_SIZE ==> block_size(r as int) >= size,
            forall|j: int| 0 <= j < r ==> block_size(j) < size,
    {
        let mut order: usize = 0;
        let mut block_size: usize = MIN_BLOCK_SIZE;
        proof {
            lemma_block_sizes();
            lemma_order_from(size as int, 0);
        }
        while block_size < size && order < MAX_ORDER
            invariant
                0 <= order <= MAX_ORDER,
                block_size == self::block_size(order as int),
                order_from(size as int, order as int) == order_of(size as int),
                forall|j: int| 0 <= j < order ==> self::block_size(j) < size,
            decreases MAX_ORDER - order,
        {
            proof {
                lemma_block_sizes();
                lemma_block_size_order(order as int, 10);
            }
            block_size *= 2;
            order += 1;
        }
        order
    }

    /// What pushing `block` onto the list of `order` does to the free bytes: it
    /// adds those of the block and leaves the others as they were.
    pub proof fn lemma_free_after_push(
        pre: &BuddyAllocator,
        post: &BuddyAllocator,
        order: int,
        block: usize,
    )
        requires
            0 <= order < ORDER_COUNT,
            post.free(order) == pre.free(order).push(block),
            post.same_lists_but(pre, order),
        ensures
            forall|a: int|
                post.is_free(a) == (pre.is_free(a) || in_range(a, block as int, block_size(order))),
    {
        let n: int = pre.free(order).len() as int;
        assert forall|a: int|
            post.is_free(a) == (pre.is_free(a) || in_range(
                a,
                block as int,
                block_size(order),
            )) by {
            if pre.is_free(a) {
                let (k, i) = choose|k: int, i: int| pre.free_at(k, i, a);
                assert(post.free(k)[i] == pre.free(k)[i]);
                assert(post.free_at(k, i, a));
            }
            if in_range(a, block as int, block_size(order)) {
                assert(post.free(order)[n] == block);
                assert(post.free_at(order, n, a));
            }
            if post.is_free(a) {
                let (k, i) = choose|k: int, i: int| post.free_at(k, i, a);
                if k == order && i == n {
                } else {
                    assert(post.free(k)[i] == pre.free(k)[i]);
                    assert(pre.free_at(k, i, a));
                }
            }
        }
    }

    /// What removing entry `i` from the list of `order` does to the free bytes:
    /// it takes away those of that block and leaves the others as they were.
    pub proof fn lemma_free_after_remove(
        pre: &BuddyAllocator,
        post: &BuddyAllocator,
        order: int,
        i: int,
    )
        requires
            pre.wf(),
            0 <= order < ORDER_COUNT,
            0 <= i < pre.free(order).len(),
            post.free(order) == pre.free(order).remove(i),
            post.same_lists_but(pre, order),
        ensures
            forall|a: int|
                post.is_free(a) == (pre.is_free(a) && !in_range(
                    a,
                    pre.free(order)[i] as int,
                    block_size(order),
                )),
    {
        let block: int = pre.free(order)[i] as int;
        assert forall|a: int|
            post.is_free(a) == (pre.is_free(a) && !in_range(a, block, block_size(order))) by {
            if post.is_free(a) {
                let (k, j) = choose|k: int, j: int| post.free_at(k, j, a);
                let j0: int = if k == order && j >= i {
                    j + 1
                } else {
                    j
                };
                assert(post.free(k)[j] == pre.free(k)[j0]);
                assert(pre.free_at(k, j0, a));
                assert(ranges_disjoint(
                    pre.free(k)[j0] as int,
                    block_size(k),
                    pre.free(order)[i] as int,
                    block_size(order),
                ));
            }
            if pre.is_free(a) && !in_range(a, block, block_size(order)) {
                let (k, j) = choose|k: int, j: int| pre.free_at(k, j, a);
                let j1: int = if k == order && j > i {
                    j - 1
                } else {
                    j
                };
                assert(post.free(k)[j1] == pre.free(k)[j]);
                assert(post.free_at(k, j1, a));
            }
        }
    }

    /// No address occurs twice on a free list.
    pub proof fn lemma_free_list_distinct(&self, order: int)
        requires
            self.wf(),
            0 <= order < ORDER_COUNT,
        ensures
            self.free(order).no_duplicates(),
    {
        assert forall|i: int, j: int|
            0 <= i < self.free(order).len() && 0 <= j < self.free(order).len() && i
                != j implies self.free(order)[i] != self.free(order)[j] by {
            lemma_block_size_positive(order);
            assert(ranges_disjoint(
                self.free(order)[i] as int,
                block_size(order),
                self.free(order)[j] as int,
                block_size(order),
            ));
        }
    }

    /// Puts `block` on the free list of `order`.
    fn push_free(&mut self, order: usize, block: usize)
        requires
            old(self).wf(),
            old(self).is_block(block as int, order as int),
            old(self).clear(block as int, order as int),
        ensures
            final(self).wf(),
            final(self).same_region(old(self)),
            final(self).free(order as int) == old(self).free(order as int).push(block),
            final(self).same_lists_but(old(self), order as int),
            forall|a: int|
                final(self).is_free(a) == (old(self).is_free(a) || in_range(
                    a,
                    block as int,
                    block_size(order as int),
                )),
            forall|a: int, o: int|
                old(self).clear(a, o) && ranges_disjoint(
                    a,
                    block_size(o),
                    block as int,
                    block_size(order as int),
                ) ==> final(self).clear(a, o),
    {
        self.orders[order].push(block);
        proof {
            let o: int = order as int;
            let n: int = old(self).free(o).len() as int;
            assert(self.free(o)[n] == block);
            assert forall|k: int, i: int|
                0 <= k < ORDER_COUNT && 0 <= i < self.free(k).len() && !(k == o && i
                    == n) implies #[trigger] self.free(k)[i] == old(self).free(k)[i] by {
                if k != o {
                    assert(self.orders@[k] == old(self).orders@[k]);
                }
            }
            assert(self.same_lists_but(old(self), o)) by {
                assert forall|k: int| 0 <= k < ORDER_COUNT && k != o
                    implies self.free(k) == old(self).free(k) by {
                    assert(self.orders@[k] == old(self).orders@[k]);
                }
            }
            assert forall|k: int, i: int|
                0 <= k < ORDER_COUNT && 0 <= i < self.free(k).len() implies self.is_block(
                (#[trigger] self.free(k)[i]) as int,
                k,
            ) by {
                if !(k == o && i == n) {
                    assert(old(self).is_block(old(self).free(k)[i] as int, k));
                }
            }
            assert forall|k1: int, i1: int, k2: int, i2: int|
                0 <= k1 < ORDER_COUNT && 0 <= i1 < self.free(k1).len() && 0 <= k2 < ORDER_COUNT
                    && 0 <= i2 < self.free(k2).len() && (k1 != k2 || i1
                    != i2) implies ranges_disjoint(
                (#[trigger] self.free(k1)[i1]) as int,
                block_size(k1),
                (#[trigger] self.free(k2)[i2]) as int,
                block_size(k2),
            ) by {
                if k1 == o && i1 == n {
                    assert(self.free(k2)[i2] == old(self).free(k2)[i2]);
                } else if k2 == o && i2 == n {
                    assert(self.free(k1)[i1] == old(self).free(k1)[i1]);
                } else {
                    assert(self.free(k1)[i1] == old(self).free(k1)[i1]);
                    assert(self.free(k2)[i2] == old(self).free(k2)[i2]);
                }
            }
            Self::lemma_free_after_push(old(self), self, o, block);
            assert forall|a: int, w: int|
                old(self).clear(a, w) && ranges_disjoint(
                    a,
                    block_size(w),
                    block as int,
                    block_size(o),
                ) implies self.clear(a, w) by {
                assert forall|k: int, i: int|
                    0 <= k < ORDER_COUNT && 0 <= i < self.free(k).len() implies ranges_disjoint(
                    (#[trigger] self.free(k)[i]) as int,
                    block_size(k),
                    a,
                    block_size(w),
                ) by {
                    if !(k == o && i == n) {
                        assert(self.free(k)[i] == old(self).free(k)[i]);
                        assert(ranges_disjoint(
                            old(self).free(k)[i] as int,
                            block_size(k),
                            a,
                            block_size(w),
                        ));
                    }
                }
            }
        }
    }

    /// What holds of a list with entry `i` removed, over a well-formed allocator.
    proof fn lemma_removed_wf(pre: &BuddyAllocator, post: &BuddyAllocator, order: int, i: int)
        requires
            pre.wf(),
            post.same_region(pre),
            0 <= order < ORDER_COUNT,
            0 <= i < pre.free(order).len(),
            post.free(order) == pre.free(order).remove(i),
            post.same_lists_but(pre, order),
        ensures
            post.wf(),
            post.clear(pre.free(order)[i] as int, order),
            pre.is_block(pre.free(order)[i] as int, order),
            forall|addr: int, o: int| pre.clear(addr, o) ==> post.clear(addr, o),
    {
        assert forall|k: int, j: int|
            0 <= k < ORDER_COUNT && 0 <= j < post.free(k).len() implies (#[trigger] post.free(
            k,
        )[j]) == pre.free(k)[if k == order && j >= i {
            j + 1
        } else {
            j
        }] by {}
        assert forall|k: int, j: int|
            0 <= k < ORDER_COUNT && 0 <= j < post.free(k).len() implies post.is_block(
            (#[trigger] post.free(k)[j]) as int,
            k,
        ) by {
            let j0: int = if k == order && j >= i {
                j + 1
            } else {
                j
            };
            assert(pre.is_block(pre.free(k)[j0] as int, k));
        }
        assert forall|k1: int, i1: int, k2: int, i2: int|
            0 <= k1 < ORDER_COUNT && 0 <= i1 < post.free(k1).len() && 0 <= k2 < ORDER_COUNT && 0
                <= i2 < post.free(k2).len() && (k1 != k2 || i1 != i2) implies ranges_disjoint(
            (#[trigger] post.free(k1)[i1]) as int,
            block_size(k1),
            (#[trigger] post.free(k2)[i2]) as int,
            block_size(k2),
        ) by {
            let j1: int = if k1 == order && i1 >= i {
                i1 + 1
            } else {
                i1
            };
            let j2: int = if k2 == order && i2 >= i {
                i2 + 1
            } else {
                i2
            };
            assert(ranges_disjoint(
                pre.free(k1)[j1] as int,
                block_size(k1),
                pre.free(k2)[j2] as int,
                block_size(k2),
            ));
        }
        assert forall|k: int, j: int|
            0 <= k < ORDER_COUNT && 0 <= j < post.free(k).len() implies ranges_disjoint(
            (#[trigger] post.free(k)[j]) as int,
            block_size(k),
            pre.free(order)[i] as int,
            block_size(order),
        ) by {
            let j0: int = if k == order && j >= i {
                j + 1
            } else {
                j
            };
            assert(ranges_disjoint(
                pre.free(k)[j0] as int,
                block_size(k),
                pre.free(order)[i] as int,
                block_size(order),
            ));
        }
        assert forall|addr: int, o: int| pre.clear(addr, o) implies post.clear(addr, o) by {
            assert forall|k: int, j: int|
                0 <= k < ORDER_COUNT && 0 <= j < post.free(k).len() implies ranges_disjoint(
                (#[trigger] post.free(k)[j]) as int,
                block_size(k),
                addr,
                block_size(o),
            ) by {
                let j0: int = if k == order && j >= i {
                    j + 1
                } else {
                    j
                };
                assert(ranges_disjoint(
                    pre.free(k)[j0] as int,
                    block_size(k),
                    addr,
                    block_size(o),
                ));
            }
        }
    }

    /// Takes the most recently freed block of `order` off its list.
    fn pop_free(&mut self, order: usize) -> (r: Option<usize>)
        requires
            old(self).wf(),
            order <= MAX_ORDER,
        ensures
            final(self).wf(),
            final(self).same_region(old(self)),
            final(self).same_lists_but(old(self), order as int),
            r.is_some() <==> old(self).free(order as int).len() > 0,
            r.is_none() ==> final(self).free(order as int) == old(self).free(order as int),
            r matches Some(block) ==> {
                &&& block == old(self).free(order as int).last()
                &&& final(self).free(order as int) == old(self).free(order as int).drop_last()
                &&& final(self).is_block(block as int, order as int)
                &&& final(self).clear(block as int, order as int)
                &&& forall|a: int|
                    final(self).is_free(a) == (old(self).is_free(a) && !in_range(
                        a,
                        block as int,
                        block_size(order as int),
                    ))
            },
    {
        let r: Option<usize> = self.orders[order].pop();
        proof {
            let o: int = order as int;
            assert(self.same_lists_but(old(self), o)) by {
                assert forall|k: int| 0 <= k < ORDER_COUNT && k != o
                    implies self.free(k) == old(self).free(k) by {
                    assert(self.orders@[k] == old(self).orders@[k]);
                }
            }
            if r.is_some() {
                let n: int = old(self).free(o).len() - 1;
                assert(self.free(o) =~= old(self).free(o).remove(n));
                assert(self.free(o) =~= old(self).free(o).drop_last());
                Self::lemma_removed_wf(old(self), self, o, n);
                Self::lemma_free_after_remove(old(self), self, o, n);
            } else {
                assert(self.free(o) =~= old(self).free(o));
                Self::lemma_same_lists_wf(old(self), self);
            }
        }
        r
    }

    /// Allocators with the same region and the same lists are alike.
    proof fn lemma_same_lists_wf(pre: &BuddyAllocator, post: &BuddyAllocator)
        requires
            pre.wf(),
            post.same_region(pre),
            forall|k: int| 0 <= k < ORDER_COUNT ==> post.free(k) == pre.free(k),
        ensures
            post.wf(),
            forall|a: int| post.is_free(a) == pre.is_free(a),
            forall|addr: int, o: int| post.clear(addr, o) == pre.clear(addr, o),
    {
        assert forall|a: int| post.is_free(a) == pre.is_free(a) by {
            if pre.is_free(a) {
                let (k, i) = choose|k: int, i: int| pre.free_at(k, i, a);
                assert(post.free_at(k, i, a));
            }
            if post.is_free(a) {
                let (k, i) = choose|k: int, i: int| post.free_at(k, i, a);
                assert(pre.free_at(k, i, a));
            }
        }
    }

    /// Takes `block` off the free list of `order` if it is there, keeping the
    /// others in their order, and says whether it was.
    pub fn try_remove_from_free_list(&mut self, block: usize, order: usize) -> (r: bool)
        requires
            old(self).wf(),
            order <= MAX_ORDER,
        ensures
            final(self).wf(),
            final(self).same_region(old(self)),
            final(self).same_lists_but(old(self), order as int),
            r == old(self).free(order as int).contains(block),
            r ==> final(self).free(order as int) == without(old(self).free(order as int), block),
            !r ==> final(self).free(order as int) == old(self).free(order as int),
            r ==> final(self).clear(block as int, order as int) && old(self).is_block(
                block as int,
                order as int,
            ),
            forall|addr: int, o: int| old(self).clear(addr, o) ==> final(self).clear(addr, o),
            forall|a: int|
                final(self).is_free(a) == (old(self).is_free(a) && !(r && in_range(
                    a,
                    block as int,
                    block_size(order as int),
                ))),
            r ==> forall|a: int|
                in_range(a, block as int, block_size(order as int)) ==> old(self).is_free(a),
    {
        let mut i: usize = 0;
        while i < self.orders[order].len()
            invariant
                self == old(self),
                self.wf(),
                order <= MAX_ORDER,
                0 <= i <= self.free(order as int).len(),
                forall|j: int| 0 <= j < i ==> self.free(order as int)[j] != block,
            decreases self.free(order as int).len() - i,
        {
            if self.orders[order][i] == block {
                self.orders[order].remove(i);
                proof {
                    let o: int = order as int;
                    let list: Seq<usize> = old(self).free(o);
                    old(self).lemma_free_list_distinct(o);
                    assert(list[i as int] == block);
                    assert(list.index_of(block) == i as int);
                    assert(self.same_lists_but(old(self), o)) by {
                        assert forall|k: int| 0 <= k < ORDER_COUNT && k != o implies self.free(k)
                            == old(self).free(k) by {
                            assert(self.orders@[k] == old(self).orders@[k]);
                        }
                    }
                    Self::lemma_removed_wf(old(self), self, o, i as int);
                    Self::lemma_free_after_remove(old(self), self, o, i as int);
                    assert forall|a: int|
                        in_range(a, block as int, block_size(o)) implies old(self).is_free(a) by {
                        assert(old(self).free_at(o, i as int, a));
                    }
                }
                return true;
            }
            i += 1;
        }
        proof {
            Self::lemma_same_lists_wf(old(self), self);
        }
        false
    }

    /// A block of the next order is two blocks of this one: its lower half
    /// starts where it does, its upper half one block size further.
    pub proof fn lemma_halves(&self, block: int, order: int)
        requires
            0 <= order < MAX_ORDER,
            self.is_block(block, order + 1),
        ensures
            block_size(order + 1) == 2 * block_size(order),
            block_size(order) > 0,
            self.is_block(block, order),
            self.is_block(block + block_size(order), order),
    {
        lemma_block_size_order(order, order + 1);
        let d: int = block_size(order);
        crate::layout::lemma_multiple_of_divisor(block - self.base(), block_size(order + 1), d);
        vstd::arithmetic::div_mod::lemma_mod_self_0(d);
        crate::layout::lemma_sum_of_multiples(block - self.base(), d, d);
    }

    /// Splits the block of `from_order` at `block`, which is on no list, down
    /// to `to_order`: at each order in between, the upper half goes onto the
    /// free list and the lower half is split further. What is left at `block`
    /// is a block of `to_order`.
    pub fn split_block(&mut self, block: usize, from_order: usize, to_order: usize)
        requires
            old(self).wf(),
            to_order <= from_order <= MAX_ORDER,
            old(self).is_block(block as int, from_order as int),
            old(self).clear(block as int, from_order as int),
        ensures
            final(self).wf(),
            final(self).same_region(old(self)),
            forall|j: int|
                to_order <= j < from_order ==> #[trigger] final(self).free(j) == old(self).free(
                    j,
                ).push((block + block_size(j)) as usize),
            forall|j: int|
                0 <= j < ORDER_COUNT && !(to_order <= j < from_order)
                    ==> #[trigger] final(self).free(j) == old(self).free(j),
            final(self).is_block(block as int, to_order as int),
            final(self).clear(block as int, to_order as int),
            forall|a: int|
                final(self).is_free(a) == (old(self).is_free(a) || in_range(
                    a,
                    block + block_size(to_order as int),
                    block_size(from_order as int) - block_size(to_order as int),
                )),
    {
        let mut current_order: usize = from_order;
        while current_order > to_order
            invariant
                self.wf(),
                self.same_region(old(self)),
                to_order <= current_order <= from_order <= MAX_ORDER,
                self.is_block(block as int, current_order as int),
                self.clear(block as int, current_order as int),
                forall|j: int|
                    current_order <= j < from_order ==> #[trigger] self.free(j) == old(self).free(
                        j,
                    ).push((block + block_size(j)) as usize),
                forall|j: int|
                    0 <= j < ORDER_COUNT && !(current_order <= j < from_order)
                        ==> #[trigger] self.free(j) == old(self).free(j),
                forall|a: int|
                    self.is_free(a) == (old(self).is_free(a) || in_range(
                        a,
                        block + block_size(current_order as int),
                        block_size(from_order as int) - block_size(current_order as int),
                    )),
            decreases current_order,
        {
            let ghost before: BuddyAllocator = *self;
            current_order -= 1;
            let half: usize = block_size_of(current_order);
            proof {
                self.lemma_halves(block as int, current_order as int);
            }
            let buddy: usize = block + half;
            proof {
                assert forall|k: int, i: int|
                    0 <= k < ORDER_COUNT && 0 <= i < self.free(k).len() implies ranges_disjoint(
                    (#[trigger] self.free(k)[i]) as int,
                    block_size(k),
                    buddy as int,
                    block_size(current_order as int),
                ) by {
                    lemma_block_size_positive(k);
                    assert(ranges_disjoint(
                        self.free(k)[i] as int,
                        block_size(k),
                        block as int,
                        block_size(current_order + 1),
                    ));
                }
            }
            self.push_free(current_order, buddy);
            proof {
                let co: int = current_order as int;
                assert forall|k: int, i: int|
                    0 <= k < ORDER_COUNT && 0 <= i < self.free(k).len() implies ranges_disjoint(
                    (#[trigger] self.free(k)[i]) as int,
                    block_size(k),
                    block as int,
                    block_size(co),
                ) by {
                    lemma_block_size_positive(k);
                    if k == co && i == before.free(co).len() {
                    } else {
                        assert(self.free(k)[i] == before.free(k)[i]);
                        assert(ranges_disjoint(
                            before.free(k)[i] as int,
                            block_size(k),
                            block as int,
                            block_size(co + 1),
                        ));
                    }
                }
                assert forall|j: int| co <= j < from_order
                    implies #[trigger] self.free(j)
                    == old(self).free(j).push((block + block_size(j)) as usize) by {
                    if j != co {
                        assert(self.free(j) == before.free(j));
                    }
                }
                assert forall|j: int|
                    0 <= j < ORDER_COUNT && !(co <= j < from_order) implies #[trigger] self.free(j)
                    == old(self).free(j) by {
                    assert(self.free(j) == before.free(j));
                }
                lemma_block_size_order(co + 1, from_order as int);
            }
        }
    }

    /// The lowest order from `order` up that has a free block; 12 where none has.
    pub open spec fn source_order(&self, order: int) -> int
        decreases ORDER_COUNT - order,
    {
        if order >= ORDER_COUNT {
            ORDER_COUNT as int
        } else if self.free(order).len() > 0 {
            order
        } else {
            self.source_order(order + 1)
        }
    }

    /// Whether a request of `size` bytes can be served: it is no larger than
    /// the largest block, and a block of its order or a higher one is free.
    pub open spec fn can_serve(&self, size: usize) -> bool {
        size <= MAX_BLOCK_SIZE && self.source_order(order_of(size as int)) < ORDER_COUNT
    }

    /// Hands out a block of the least order that holds `layout.size()` bytes.
    /// It takes the most recently freed block of the lowest order, from that
    /// one up, that has a free block, and splits it down: the block handed out
    /// is its lowest part, the upper halves go onto the lists in between.
    /// `None`, with nothing changed, where the size is above the largest block
    /// or no order from the needed one up has a free block.
    pub fn allocate(&mut self, layout: Layout) -> (r: Option<usize>)
        requires
            old(self).wf(),
            layout.wf(),
        ensures
            final(self).wf(),
            final(self).same_region(old(self)),
            r.is_some() <==> old(self).can_serve(layout.size()),
            r.is_none() ==> forall|j: int|
                0 <= j < ORDER_COUNT ==> #[trigger] final(self).free(j) == old(self).free(j),
            forall|a: int, o: int| old(self).clear(a, o) ==> final(self).clear(a, o),
            r matches Some(addr) ==> {
                let order = order_of(layout.size() as int);
                let source = old(self).source_order(order);
                &&& order <= source < ORDER_COUNT
                &&& addr == old(self).free(source).last()
                &&& final(self).free(source) == old(self).free(source).drop_last()
                &&& forall|j: int|
                    order <= j < source ==> #[trigger] final(self).free(j) == old(self).free(
                        j,
                    ).push((addr + block_size(j)) as usize)
                &&& forall|j: int|
                    0 <= j < ORDER_COUNT && !(order <= j <= source)
                        ==> #[trigger] final(self).free(j) == old(self).free(j)
                &&& final(self).is_block(addr as int, order)
                &&& final(self).clear(addr as int, order)
                &&& block_size(order) >= layout.size()
                &&& addr % (block_size(order) as usize) == 0
                &&& forall|a: int|
                    in_range(a, addr as int, block_size(order)) ==> old(self).is_free(a)
                &&& forall|a: int|
                    final(self).is_free(a) == (old(self).is_free(a) && !in_range(
                        a,
                        addr as int,
                        block_size(order),
                    ))
            },
    {
        let size: usize = layout.size();
        if size > MAX_BLOCK_SIZE {
            proof {
                Self::lemma_same_lists_wf(old(self), self);
            }
            return None;
        }
        let order: usize = self.size_to_order(size);
        let mut current_order: usize = order;
        while current_order < ORDER_COUNT
            invariant
                self.wf(),
                old(self).wf(),
                self.same_region(old(self)),
                forall|j: int| 0 <= j < ORDER_COUNT
                    ==> #[trigger] self.free(j) == old(self).free(j),
                order <= current_order <= ORDER_COUNT,
                order == order_of(size as int),
                size <= MAX_BLOCK_SIZE,
                size == layout.size(),
                block_size(order as int) >= size,
                old(self).source_order(order as int) == old(self).source_order(
                    current_order as int,
                ),
            decreases ORDER_COUNT - current_order,
        {
            let ghost pre: BuddyAllocator = *self;
            proof {
                Self::lemma_same_lists_wf(old(self), &pre);
            }
            match self.pop_free(current_order) {
                Some(block) => {
                    let ghost mid: BuddyAllocator = *self;
                    if current_order > order {
                        self.split_block(block, current_order, order);
                    }
                    proof {
                        let o: int = order as int;
                        let src: int = current_order as int;
                        lemma_block_size_order(o, src);
                        lemma_block_size_order(o, 11);
                        lemma_block_sizes();
                        if src > o {
                            mid.lemma_lower_orders(block as int, src, o);
                        }
                        assert forall|j: int| o <= j < src
                            implies #[trigger] self.free(j)
                            == old(self).free(j).push((block + block_size(j)) as usize) by {
                            assert(mid.free(j) == old(self).free(j));
                        }
                        assert forall|j: int|
                            0 <= j < ORDER_COUNT && !(o <= j <= src) implies #[trigger] self.free(
                            j,
                        ) == old(self).free(j) by {
                            assert(mid.free(j) == old(self).free(j));
                        }
                        assert(self.free(src) == mid.free(src));
                        assert forall|a: int|
                            in_range(a, block as int, block_size(o)) implies old(self).is_free(
                            a,
                        ) by {
                            let n: int = old(self).free(src).len() - 1;
                            assert(old(self).free_at(src, n, a));
                        }
                        assert forall|a: int|
                            self.is_free(a) == (old(self).is_free(a) && !in_range(
                                a,
                                block as int,
                                block_size(o),
                            )) by {
                            let n: int = old(self).free(src).len() - 1;
                            if in_range(a, block as int, block_size(src)) {
                                assert(old(self).free_at(src, n, a));
                            }
                        }
                        crate::layout::lemma_multiple_of_divisor(
                            self.base() as int,
                            MAX_BLOCK_SIZE as int,
                            block_size(o),
                        );
                        crate::layout::lemma_sum_of_multiples(
                            self.base() as int,
                            block - self.base(),
                            block_size(o),
                        );
                    }
                    return Some(block);
                },
                None => {
                    proof {
                        assert forall|j: int| 0 <= j < ORDER_COUNT implies #[trigger] self.free(j)
                            == old(self).free(j) by {
                            if j != current_order {
                                assert(self.free(j) == pre.free(j));
                            }
                        }
                    }
                },
            }
            current_order += 1;
        }
        None
    }

    /// A block of one order starts a block of every lower order.
    pub proof fn lemma_lower_orders(&self, block: int, from: int, to: int)
        requires
            0 <= to <= from <= MAX_ORDER,
            self.is_block(block, from),
        ensures
            self.is_block(block, to),
        decreases from - to,
    {
        if to < from {
            self.lemma_halves(block, from - 1);
            self.lemma_lower_orders(block, from - 1, to);
        }
    }

    /// Start of the block of `order` that holds the byte at `addr`.
    pub open spec fn enclosing(&self, addr: int, order: int) -> int {
        addr - (addr - self.base()) % block_size(order)
    }

    /// Address of the buddy of the block of `order` at `addr`.
    pub open spec fn buddy_addr(&self, addr: int, order: int) -> int {
        self.base() + buddy_offset(addr - self.base(), order)
    }

    /// The buddy, at `order`, of the block of that order that holds `addr`.
    pub open spec fn buddy_at(&self, addr: int, order: int) -> int {
        self.buddy_addr(self.enclosing(addr, order), order)
    }

    /// Whether a block freed at `addr` that has grown to `order` merges once
    /// more: the order is below the highest and the buddy is on its free list.
    pub open spec fn merges_at(&self, addr: int, order: int) -> bool {
        0 <= order < MAX_ORDER && self.is_free_block(self.buddy_at(addr, order), order)
    }

    /// The order at which a block of `order` freed at `addr` comes to rest:
    /// the first one, from `order` up, at which it does not merge.
    pub open spec fn merged_order(&self, addr: int, order: int) -> int
        decreases MAX_ORDER - order,
    {
        if self.merges_at(addr, order) {
            self.merged_order(addr, order + 1)
        } else {
            order
        }
    }

    /// The state after the block of `order` at `block` was freed into `pre`:
    /// at each order from `order` up to where the block comes to rest, the
    /// buddy has left its list; the merged block is the newest entry of the
    /// list of the order at which it rests; all other lists are as before.
    pub open spec fn freed_into(
        &self,
        pre: &BuddyAllocator,
        block: int,
        order: int,
    ) -> bool {
        let rest = pre.merged_order(block, order);
        &&& self.same_region(pre)
        &&& self.free(rest) == pre.free(rest).push(pre.enclosing(block, rest) as usize)
        &&& forall|j: int|
            order <= j < rest ==> #[trigger] self.free(j) == without(
                pre.free(j),
                pre.buddy_at(block, j) as usize,
            )
        &&& forall|j: int|
            0 <= j < ORDER_COUNT && !(order <= j <= rest) ==> #[trigger] self.free(j) == pre.free(
                j,
            )
    }

    /// The block of the next order that holds a block and its buddy starts at
    /// the lower of the two, and is the one that encloses every byte of either.
    pub proof fn lemma_parent(&self, block: int, order: int, addr: int)
        requires
            0 <= order < MAX_ORDER,
            self.base() <= block,
            (block - self.base()) % block_size(order) == 0,
            block == self.enclosing(addr, order),
            self.base() <= addr,
        ensures
            block_size(order + 1) == 2 * block_size(order),
            block_size(order) > 0,
            self.buddy_addr(block, order) == block + block_size(order) || self.buddy_addr(
                block,
                order,
            ) == block - block_size(order),
            self.buddy_addr(block, order) < block ==> self.enclosing(addr, order + 1)
                == self.buddy_addr(block, order),
            self.buddy_addr(block, order) > block ==> self.enclosing(addr, order + 1) == block,
            (self.enclosing(addr, order + 1) - self.base()) % block_size(order + 1) == 0,
    {
        lemma_block_size_order(order, order + 1);
        let d: int = block_size(order);
        let off: int = block - self.base();
        let x: int = addr - self.base();
        let q: int = off / d;
        vstd::arithmetic::div_mod::lemma_fundamental_div_mod(off, d);
        vstd::arithmetic::div_mod::lemma_fundamental_div_mod(x, d);
        vstd::arithmetic::div_mod::lemma_mod_bound(x, d);
        let h: int = q / 2;
        let p: int = if q % 2 == 0 {
            off
        } else {
            off - d
        };
        assert(p == (2 * d) * h) by (nonlinear_arith)
            requires
                off == d * q,
                h == q / 2,
                p == if q % 2 == 0 {
                    off
                } else {
                    off - d
                },
        ;
        assert(p <= x < p + 2 * d);
        assert(p == h * (2 * d)) by (nonlinear_arith)
            requires
                p == (2 * d) * h,
        ;
        vstd::arithmetic::div_mod::lemma_fundamental_div_mod_converse(x, 2 * d, h, x - p);
        vstd::arithmetic::div_mod::lemma_mod_multiples_basic(h, 2 * d);
    }

    /// Puts the block of `order` at `block`, which shares no byte with a free
    /// block, back: as long as its buddy is free and the order is below the
    /// highest, the buddy leaves its list and the two become one block of the
    /// next order, starting at the lower address. The block that results goes
    /// onto the list of its order.
    pub fn merge_and_free(&mut self, block: usize, order: usize)
        requires
            old(self).wf(),
            old(self).is_block(block as int, order as int),
            old(self).clear(block as int, order as int),
        ensures
            final(self).wf(),
            final(self).freed_into(old(self), block as int, order as int),
            forall|a: int|
                final(self).is_free(a) == (old(self).is_free(a) || in_range(
                    a,
                    block as int,
                    block_size(order as int),
                )),
            forall|a: int, o: int|
                old(self).clear(a, o) && ranges_disjoint(
                    a,
                    block_size(o),
                    block as int,
                    block_size(order as int),
                ) ==> final(self).clear(a, o),
    {
        let mut current_block: usize = block;
        let mut current_order: usize = order;
        let mut merging: bool = true;
        let ghost rest: int = old(self).merged_order(block as int, order as int);
        proof {
            lemma_order_from(self.total() as int, 0);
            lemma_block_size_order(order_of(self.total() as int), 11);
            lemma_block_sizes();
        }
        while merging && current_order < MAX_ORDER
            invariant
                self.wf(),
                old(self).wf(),
                self.same_region(old(self)),
                order <= current_order <= MAX_ORDER,
                self.base() <= block,
                self.total() <= MAX_BLOCK_SIZE,
                self.is_block(current_block as int, current_order as int),
                self.clear(current_block as int, current_order as int),
                current_block == old(self).enclosing(block as int, current_order as int),
                rest == old(self).merged_order(block as int, current_order as int),
                !merging ==> rest == current_order,
                forall|j: int|
                    order <= j < current_order ==> #[trigger] self.free(j) == without(
                        old(self).free(j),
                        old(self).buddy_at(block as int, j) as usize,
                    ),
                forall|j: int|
                    0 <= j < ORDER_COUNT && !(order <= j < current_order) ==> #[trigger] self.free(
                        j,
                    ) == old(self).free(j),
                forall|a: int|
                    (self.is_free(a) || in_range(
                        a,
                        current_block as int,
                        block_size(current_order as int),
                    )) == (old(self).is_free(a) || in_range(
                        a,
                        block as int,
                        block_size(order as int),
                    )),
                forall|a: int, o: int| old(self).clear(a, o) ==> self.clear(a, o),
                forall|a: int, o: int|
                    #![trigger old(self).clear(a, o)]
                    old(self).clear(a, o) && ranges_disjoint(
                        a,
                        block_size(o),
                        block as int,
                        block_size(order as int),
                    ) ==> ranges_disjoint(
                        a,
                        block_size(o),
                        current_block as int,
                        block_size(current_order as int),
                    ),
            decreases MAX_ORDER - current_order + (if merging { 1int } else { 0int }),
        {
            let ghost before: BuddyAllocator = *self;
            let ghost co: int = current_order as int;
            let size: usize = block_size_of(current_order);
            let offset: usize = current_block - self.base_ptr;
            proof {
                lemma_block_sizes();
                lemma_block_size_order(co, 11);
                lemma_xor_is_buddy(offset, co);
                self.lemma_parent(current_block as int, co, block as int);
            }
            let buddy_offset: usize = offset ^ size;
            let buddy: usize = self.base_ptr + buddy_offset;
            assert(buddy == old(self).buddy_at(block as int, co));
            if self.try_remove_from_free_list(buddy, current_order) {
                proof {
                    assert(before.free(co) == old(self).free(co));
                    assert(before.free(co).contains(buddy));
                    let i: int = choose|i: int|
                        0 <= i < before.free(co).len() && before.free(co)[i] == buddy;
                    assert(old(self).free(co)[i] == buddy);
                    assert(old(self).merges_at(block as int, co));
                    assert(before.is_block(before.free(co)[i] as int, co));
                }
                let parent: usize = if current_block < buddy {
                    current_block
                } else {
                    buddy
                };
                proof {
                    assert forall|k: int, i: int|
                        0 <= k < ORDER_COUNT && 0 <= i < self.free(k).len()
                            implies ranges_disjoint(
                        (#[trigger] self.free(k)[i]) as int,
                        block_size(k),
                        parent as int,
                        block_size(co + 1),
                    ) by {
                        lemma_block_size_positive(k);
                        assert(ranges_disjoint(
                            self.free(k)[i] as int,
                            block_size(k),
                            buddy as int,
                            block_size(co),
                        ));
                        assert(ranges_disjoint(
                            self.free(k)[i] as int,
                            block_size(k),
                            current_block as int,
                            block_size(co),
                        ));
                    }
                    assert forall|a: int, o: int|
                        #![trigger old(self).clear(a, o)]
                        old(self).clear(a, o) && ranges_disjoint(
                            a,
                            block_size(o),
                            block as int,
                            block_size(order as int),
                        ) implies ranges_disjoint(
                        a,
                        block_size(o),
                        parent as int,
                        block_size(co + 1),
                    ) by {
                        let i: int = choose|i: int|
                            0 <= i < old(self).free(co).len() && old(self).free(co)[i] == buddy;
                        assert(ranges_disjoint(
                            old(self).free(co)[i] as int,
                            block_size(co),
                            a,
                            block_size(o),
                        ));
                    }
                    assert forall|j: int| order <= j < co + 1 implies #[trigger] self.free(j)
                        == without(
                        old(self).free(j),
                        old(self).buddy_at(block as int, j) as usize,
                    ) by {
                        if j != co {
                            assert(self.free(j) == before.free(j));
                        }
                    }
                    assert forall|j: int|
                        0 <= j < ORDER_COUNT && !(order <= j < co + 1) implies #[trigger] self.free(
                        j,
                    ) == old(self).free(j) by {
                        assert(self.free(j) == before.free(j));
                    }
                }
                current_block = parent;
                current_order += 1;
            } else {
                proof {
                    assert(before.free(co) == old(self).free(co));
                    if old(self).merges_at(block as int, co) {
                        let i: int = choose|i: int|
                            0 <= i < old(self).free(co).len() && #[trigger] old(self).free(co)[i]
                                == old(self).buddy_at(block as int, co);
                        assert(before.free(co)[i] == buddy);
                    }
                    assert forall|j: int|
                        0 <= j < ORDER_COUNT implies #[trigger] self.free(j) == before.free(j) by {}
                }
                merging = false;
            }
        }
        self.push_free(current_order, current_block);
        proof {
            assert(rest == current_order);
            assert forall|j: int| order <= j < rest implies #[trigger] self.free(j) == without(
                old(self).free(j),
                old(self).buddy_at(block as int, j) as usize,
            ) by {}
            assert forall|j: int|
                0 <= j < ORDER_COUNT && !(order <= j <= rest) implies #[trigger] self.free(j)
                == old(self).free(j) by {}
        }
    }

    /// Frees the block at `ptr` that was handed out for `layout`, merging it
    /// with free buddies as far as it goes. The caller owes that the block was
    /// handed out for this layout and has not been freed since, so that it is
    /// a block of the layout's order none of whose bytes is free.
    pub fn deallocate(&mut self, ptr: usize, layout: Layout)
        requires
            old(self).wf(),
            layout.wf(),
            old(self).can_free(ptr, layout),
        ensures
            final(self).wf(),
            final(self).freed_into(old(self), ptr as int, order_of(layout.size() as int)),
            forall|a: int|
                final(self).is_free(a) == (old(self).is_free(a) || in_range(
                    a,
                    ptr as int,
                    block_size(order_of(layout.size() as int)),
                )),
            forall|a: int, o: int|
                old(self).clear(a, o) && ranges_disjoint(
                    a,
                    block_size(o),
                    ptr as int,
                    block_size(order_of(layout.size() as int)),
                ) ==> final(self).clear(a, o),
    {
        let order: usize = self.size_to_order(layout.size());
        self.merge_and_free(ptr, order);
    }

    /// No byte of a block that shares no byte with a free block is free.
    pub proof fn lemma_clear_bytes_not_free(&self, addr: int, order: int, a: int)
        requires
            self.clear(addr, order),
            in_range(a, addr, block_size(order)),
        ensures
            !self.is_free(a),
    {
        if self.is_free(a) {
            let (k, i) = choose|k: int, i: int| self.free_at(k, i, a);
            assert(ranges_disjoint(self.free(k)[i] as int, block_size(k), addr, block_size(order)));
        }
    }

    /// A block in use is not touched by an allocation: a block that shares
    /// no byte with a free block shares none with a block whose bytes are all
    /// free, as those of the block handed out next are.
    pub proof fn lemma_live_block_apart(
        &self,
        live: int,
        live_order: int,
        taken: int,
        taken_order: int,
    )
        requires
            self.clear(live, live_order),
            forall|a: int| in_range(a, taken, block_size(taken_order)) ==> self.is_free(a),
        ensures
            ranges_disjoint(live, block_size(live_order), taken, block_size(taken_order)),
    {
        if !ranges_disjoint(live, block_size(live_order), taken, block_size(taken_order)) {
            let a: int = if live >= taken {
                live
            } else {
                taken
            };
            assert(in_range(a, taken, block_size(taken_order)));
            self.lemma_clear_bytes_not_free(live, live_order, a);
        }
    }

    /// What `deallocate` asks of its caller: a block of the layout's order
    /// starts at `ptr`, and none of its bytes is free.
    pub open spec fn can_free(&self, ptr: usize, layout: Layout) -> bool {
        &&& self.is_block(ptr as int, order_of(layout.size() as int))
        &&& self.clear(ptr as int, order_of(layout.size() as int))
    }

    /// Tests what `deallocate` asks of its caller.
    pub fn can_deallocate(&self, ptr: usize, layout: Layout) -> (r: bool)
        requires
            self.wf(),
        ensures
            r == self.can_free(ptr, layout),
    {
        let order: usize = self.size_to_order(layout.size());
        let size: usize = block_size_of(order);
        proof {
            lemma_block_size_positive(order as int);
        }
        if ptr < self.base_ptr || (ptr - self.base_ptr) % size != 0 || size > self.total_size
            || ptr - self.base_ptr > self.total_size - size {
            return false;
        }
        let mut k: usize = 0;
        while k < ORDER_COUNT
            invariant
                self.wf(),
                0 <= k <= ORDER_COUNT,
                order <= MAX_ORDER,
                order == order_of(layout.size() as int),
                size == block_size(order as int),
                ptr + size <= usize::MAX,
                forall|j: int, i: int|
                    0 <= j < k && 0 <= i < self.free(j).len() ==> ranges_disjoint(
                        (#[trigger] self.free(j)[i]) as int,
                        block_size(j),
                        ptr as int,
                        size as int,
                    ),
            decreases ORDER_COUNT - k,
        {
            let width: usize = block_size_of(k);
            let mut i: usize = 0;
            while i < self.orders[k].len()
                invariant
                    self.wf(),
                    0 <= k < ORDER_COUNT,
                    width == block_size(k as int),
                    order == order_of(layout.size() as int),
                    size == block_size(order as int),
                    ptr + size <= usize::MAX,
                    0 <= i <= self.free(k as int).len(),
                    forall|n: int|
                        0 <= n < i ==> ranges_disjoint(
                            (#[trigger] self.free(k as int)[n]) as int,
                            block_size(k as int),
                            ptr as int,
                            size as int,
                        ),
                decreases self.free(k as int).len() - i,
            {
                let block: usize = self.orders[k][i];
                assert(self.is_block(self.free(k as int)[i as int] as int, k as int));
                if ranges_overlap(block, width, ptr, size) {
                    proof {
                        if self.clear(ptr as int, order as int) {
                            assert(ranges_disjoint(
                                self.free(k as int)[i as int] as int,
                                block_size(k as int),
                                ptr as int,
                                block_size(order as int),
                            ));
                        }
                    }
                    return false;
                }
                i += 1;
            }
            k += 1;
        }
        true
    }

    /// A byte lies in the block that encloses it, which starts at a multiple
    /// of its size from the base.
    pub proof fn lemma_enclosing(&self, addr: int, order: int)
        requires
            self.base() <= addr,
            0 <= order,
        ensures
            self.enclosing(addr, order) <= addr < self.enclosing(addr, order) + block_size(order),
            (self.enclosing(addr, order) - self.base()) % block_size(order) == 0,
            self.base() <= self.enclosing(addr, order),
    {
        lemma_block_size_positive(order);
        let d: int = block_size(order);
        let x: int = addr - self.base();
        vstd::arithmetic::div_mod::lemma_fundamental_div_mod(x, d);
        vstd::arithmetic::div_mod::lemma_mod_bound(x, d);
        vstd::arithmetic::div_mod::lemma_mod_multiples_basic(x / d, d);
        assert(d * (x / d) == (x / d) * d) by (nonlinear_arith);
    }

    /// A block of a lower order lies whole inside the block of a higher order
    /// that encloses its first byte.
    pub proof fn lemma_enclosed_whole(&self, block: int, order: int, higher: int)
        requires
            0 <= order <= higher,
            self.base() <= block,
            (block - self.base()) % block_size(order) == 0,
        ensures
            self.enclosing(block, higher) <= block,
            block + block_size(order) <= self.enclosing(block, higher) + block_size(higher),
    {
        self.lemma_enclosing(block, higher);
        lemma_block_size_order(order, higher);
        let e: int = self.enclosing(block, higher) - self.base();
        crate::layout::lemma_multiple_of_divisor(e, block_size(higher), block_size(order));
        crate::layout::lemma_sum_of_multiples(e, block_size(higher), block_size(order));
        lemma_multiples_apart(block - self.base(), e + block_size(higher), block_size(order));
    }

    /// The order at which a freed block comes to rest is not below its own
    /// and not above the highest.
    pub proof fn lemma_merged_order_bounds(&self, addr: int, order: int)
        requires
            0 <= order <= MAX_ORDER,
        ensures
            order <= self.merged_order(addr, order) <= MAX_ORDER,
        decreases MAX_ORDER - order,
    {
        if self.merges_at(addr, order) {
            self.lemma_merged_order_bounds(addr, order + 1);
        }
    }

    /// Freeing a block whose buddy is free merges the two: the buddy leaves
    /// the list of their order, on which the block does not appear either,
    /// and the newest entry of a list of a higher order is one block that
    /// holds both.
    pub proof fn lemma_freed_buddies_merge(
        pre: &BuddyAllocator,
        post: &BuddyAllocator,
        block: int,
        order: int,
    )
        requires
            pre.wf(),
            0 <= order < MAX_ORDER,
            pre.is_block(block, order),
            pre.clear(block, order),
            pre.is_free_block(pre.buddy_addr(block, order), order),
            post.freed_into(pre, block, order),
        ensures
            ({
                let rest = pre.merged_order(block, order);
                let merged = pre.enclosing(block, rest);
                let buddy = pre.buddy_addr(block, order);
                &&& order < rest <= MAX_ORDER
                &&& post.free(rest).len() > 0
                &&& post.free(rest).last() == merged
                &&& merged <= block
                &&& block + block_size(order) <= merged + block_size(rest)
                &&& merged <= buddy
                &&& buddy + block_size(order) <= merged + block_size(rest)
                &&& !post.is_free_block(block, order)
                &&& !post.is_free_block(buddy, order)
            }),
    {
        let rest: int = pre.merged_order(block, order);
        let buddy: int = pre.buddy_addr(block, order);
        lemma_block_size_positive(order);
        vstd::arithmetic::div_mod::lemma_small_mod(0, block_size(order) as nat);
        assert(pre.enclosing(block, order) == block);
        assert(pre.merges_at(block, order));
        pre.lemma_merged_order_bounds(block, order + 1);
        pre.lemma_parent(block, order, block);
        let parent: int = pre.enclosing(block, order + 1);
        pre.lemma_enclosing(block, rest);
        pre.lemma_enclosed_whole(parent, order + 1, rest);
        pre.lemma_enclosing(parent, rest);
        pre.lemma_enclosing(block, order + 1);
        lemma_block_size_order(order + 1, rest);
        // The parent and the block have the same enclosing block of the order of rest.
        let e: int = pre.enclosing(block, rest);
        let f: int = pre.enclosing(parent, rest);
        crate::layout::lemma_multiple_of_divisor(e - pre.base(), block_size(rest),
            block_size(order + 1));
        crate::layout::lemma_multiple_of_divisor(f - pre.base(), block_size(rest),
            block_size(order + 1));
        if e < f {
            lemma_multiples_apart(e - pre.base(), f - pre.base(), block_size(rest));
        } else if f < e {
            lemma_multiples_apart(f - pre.base(), e - pre.base(), block_size(rest));
            lemma_multiples_apart(parent - pre.base(), e - pre.base(), block_size(order + 1));
        }
        assert(e == f);
        let i: int = choose|i: int|
            0 <= i < pre.free(order).len() && #[trigger] pre.free(order)[i] == buddy;
        pre.lemma_free_list_distinct(order);
        assert(pre.free(order).index_of(buddy as usize) == i);
        assert(post.free(order) == pre.free(order).remove(i));
        assert(ranges_disjoint(pre.free(order)[i] as int, block_size(order), block,
            block_size(order)));
        assert forall|j: int| 0 <= j < post.free(order).len() implies #[trigger] post.free(order)[j]
            != block && post.free(order)[j] != buddy by {
            let j0: int = if j < i {
                j
            } else {
                j + 1
            };
            assert(post.free(order)[j] == pre.free(order)[j0]);
            assert(ranges_disjoint(
                pre.free(order)[j0] as int,
                block_size(order),
                block,
                block_size(order),
            ));
        }
    }

    /// Address of the region's first byte.
    pub fn base_ptr(&self) -> (r: usize)
        ensures
            r == self.base(),
    {
        self.base_ptr
    }

    /// Bytes in the region.
    pub fn total_size(&self) -> (r: usize)
        ensures
            r == self.total(),
    {
        self.total_size
    }

    /// Number of free blocks of `order`.
    pub fn free_count(&self, order: usize) -> (r: usize)
        requires
            self.wf(),
            order <= MAX_ORDER,
        ensures
            r == self.free(order as int).len(),
    {
        self.orders[order].len()
    }

    /// The free block of `order` at position `i` of its list.
    pub fn free_block(&self, order: usize, i: usize) -> (r: usize)
        requires
            self.wf(),
            order <= MAX_ORDER,
            i < self.free(order as int).len(),
        ensures
            r == self.free(order as int)[i as int],
    {
        self.orders[order][i]
    }
}

} // verus!
