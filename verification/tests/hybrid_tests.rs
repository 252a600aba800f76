use customallocator::arena::ARENA_SIZE;
use customallocator::global::GlobalCustomAllocator;
use customallocator::hybrid::{route, HybridAllocator, Route, ARENA_LIMIT};
use customallocator::layout::Layout;
use customallocator::slab::SLAB_CLASSES;

const PAGE_A: usize = 0x0010_0000;
const PAGE_B: usize = 0x0020_0000;
const CHUNK_A: usize = 0x1000_0000;
const CHUNK_B: usize = 0x2000_0000;
const BIG_A: usize = 0x4000_0000;
const BIG_B: usize = 0x5000_0000;

fn layout(size: usize, align: usize) -> Layout {
    Layout::from_size_align(size, align).unwrap()
}

fn disjoint(blocks: &[(usize, usize)]) -> bool {
    for i in 0..blocks.len() {
        for j in (i + 1)..blocks.len() {
            let (a, n) = blocks[i];
            let (b, m) = blocks[j];
            if !(a + n <= b || b + m <= a) {
                return false;
            }
        }
    }
    true
}

#[test]
fn routes_by_size_and_alignment() {
    assert_eq!(ARENA_LIMIT, 4096);
    assert_eq!(route(layout(0, 1)), Route::Slab);
    assert_eq!(route(layout(1, 1)), Route::Slab);
    assert_eq!(route(layout(2048, 16)), Route::Slab);
    assert_eq!(route(layout(2048, 32)), Route::Arena);
    assert_eq!(route(layout(8, 64)), Route::Arena);
    assert_eq!(route(layout(2049, 8)), Route::Arena);
    assert_eq!(route(layout(4096, 4096)), Route::Arena);
    assert_eq!(route(layout(4097, 1)), Route::Large);
    assert_eq!(route(layout(8192, 16)), Route::Large);
    assert_eq!(route(layout(1 << 30, 4096)), Route::Large);
}

#[test]
fn refill_layout_names_what_to_reserve() {
    let page = HybridAllocator::refill_layout(layout(100, 8));
    assert_eq!((page.size(), page.align()), (4096, 16));
    let chunk = HybridAllocator::refill_layout(layout(3000, 8));
    assert_eq!((chunk.size(), chunk.align()), (ARENA_SIZE, 16));
    let chunk = HybridAllocator::refill_layout(layout(64, 128));
    assert_eq!((chunk.size(), chunk.align()), (ARENA_SIZE, 16));
    let large = HybridAllocator::refill_layout(layout(8192, 64));
    assert_eq!((large.size(), large.align()), (8192, 64));
}

#[test]
fn hybrid_starts_without_memory() {
    let mut hybrid = HybridAllocator::new();
    assert_eq!(hybrid.arena().arena_count(), 0);
    assert_eq!(hybrid.large_block_count(), 0);
    for idx in 0..SLAB_CLASSES {
        assert_eq!(hybrid.slab().page_count(idx), 0);
    }
    assert_eq!(hybrid.allocate(layout(16, 8)), None);
    assert_eq!(hybrid.allocate(layout(4000, 8)), None);
    assert_eq!(hybrid.allocate(layout(8192, 8)), None);
}

#[test]
fn hybrid_serves_small_requests_from_a_slab_page() {
    let mut hybrid = HybridAllocator::new();
    let l = layout(100, 8);
    assert_eq!(hybrid.allocate_fresh(l, PAGE_A), Some(PAGE_A + 4096 - 128));
    assert_eq!(hybrid.slab().page_count(3), 1);
    assert_eq!(hybrid.slab().free_count(3), 31);
    assert_eq!(hybrid.arena().arena_count(), 0);
    assert_eq!(hybrid.large_block_count(), 0);
    assert_eq!(hybrid.allocate(l), Some(PAGE_A + 4096 - 256));
    assert_eq!(hybrid.allocate(layout(128, 16)), Some(PAGE_A + 4096 - 384));
    assert_eq!(hybrid.allocate(layout(129, 16)), None);
}

#[test]
fn hybrid_serves_mid_requests_from_the_arena() {
    let mut hybrid = HybridAllocator::new();
    let l = layout(3000, 8);
    assert_eq!(hybrid.allocate_fresh(l, CHUNK_A), Some(CHUNK_A));
    assert_eq!(hybrid.arena().arena_count(), 1);
    assert_eq!(hybrid.arena().current_offset(), 3000);
    assert_eq!(hybrid.allocate(l), Some(CHUNK_A + 3000));
    assert_eq!(hybrid.allocate(layout(8, 64)), Some(CHUNK_A + 6016));
    assert_eq!(hybrid.arena().current_offset(), 6024);
    for idx in 0..SLAB_CLASSES {
        assert_eq!(hybrid.slab().page_count(idx), 0);
    }
}

#[test]
fn hybrid_arena_blocks_are_never_taken_back() {
    let mut hybrid = HybridAllocator::new();
    let l = layout(4096, 16);
    let p = hybrid.allocate_fresh(l, CHUNK_A).unwrap();
    assert!(hybrid.can_deallocate(p, l));
    assert!(hybrid.deallocate(p, l).is_none());
    assert_eq!(hybrid.arena().current_offset(), 4096);
    assert_eq!(hybrid.allocate(l), Some(CHUNK_A + 4096));
}

#[test]
fn hybrid_arena_growth_links_a_second_chunk() {
    let mut hybrid = HybridAllocator::new();
    let l = layout(4096, 8);
    let mut served = 0usize;
    let mut first = hybrid.allocate_fresh(l, CHUNK_A);
    while let Some(p) = first {
        assert_eq!(p, CHUNK_A + served * 4096);
        served += 1;
        first = hybrid.allocate(l);
    }
    assert_eq!(served, ARENA_SIZE / 4096);
    assert_eq!(served * 4096, 4 * 1024 * 1024);
    assert_eq!(hybrid.arena().arena_count(), 1);
    assert_eq!(hybrid.arena().current_offset(), ARENA_SIZE);
    assert_eq!(hybrid.allocate_fresh(l, CHUNK_B), Some(CHUNK_B));
    assert_eq!(hybrid.arena().arena_count(), 2);
    assert_eq!(hybrid.arena().current_offset(), 4096);
}

#[test]
fn second_arena_starts_at_offset_zero() {
    let mut hybrid = HybridAllocator::new();
    let l = layout(2500, 16);
    assert_eq!(hybrid.allocate_fresh(l, CHUNK_A), Some(CHUNK_A));
    let mut count = 1usize;
    while hybrid.allocate(l).is_some() {
        count += 1;
    }
    assert_eq!(count, (ARENA_SIZE - 2500) / 2512 + 1);
    assert_eq!(count, 1669);
    let zero = layout(0, 32);
    assert_eq!(hybrid.allocate_fresh(zero, CHUNK_B), Some(CHUNK_B));
    assert_eq!(hybrid.arena().arena_count(), 2);
    assert_eq!(hybrid.arena().current_offset(), 0);
}

#[test]
fn large_block_round_trip() {
    let mut hybrid = HybridAllocator::new();
    let l = layout(8192, 16);
    assert_eq!(route(l), Route::Large);
    assert_eq!(hybrid.allocate(l), None);
    assert_eq!(hybrid.allocate_fresh(l, BIG_A), Some(BIG_A));
    assert_eq!(hybrid.arena().arena_count(), 0);
    assert_eq!(hybrid.arena().current_offset(), 0);
    for idx in 0..SLAB_CLASSES {
        assert_eq!(hybrid.slab().page_count(idx), 0);
        assert_eq!(hybrid.slab().free_count(idx), 0);
    }
    assert_eq!(hybrid.large_block_count(), 1);
    assert!(hybrid.is_tracked(BIG_A));
    let record = hybrid.deallocate(BIG_A, l).unwrap();
    assert_eq!(record.ptr(), BIG_A);
    assert_eq!(record.size(), 8192);
    assert_eq!(record.layout().size(), 8192);
    assert_eq!(record.layout().align(), 16);
    assert_eq!(hybrid.large_block_count(), 0);
    assert!(!hybrid.is_tracked(BIG_A));
    assert!(hybrid.deallocate(BIG_A, l).is_none());
}

#[test]
fn large_blocks_leave_the_list_in_any_order() {
    let mut hybrid = HybridAllocator::new();
    let l = layout(10000, 8);
    assert_eq!(hybrid.allocate_large(BIG_A, l), Some(BIG_A));
    assert_eq!(hybrid.allocate_large(BIG_B, l), Some(BIG_B));
    assert_eq!(hybrid.allocate_large(BIG_B + 16384, layout(5000, 8)), Some(BIG_B + 16384));
    assert_eq!(hybrid.large_block_count(), 3);
    let mid = hybrid.deallocate_large(BIG_B, l).unwrap();
    assert_eq!((mid.ptr(), mid.size()), (BIG_B, 10000));
    assert!(hybrid.is_tracked(BIG_A));
    assert!(!hybrid.is_tracked(BIG_B));
    assert!(hybrid.is_tracked(BIG_B + 16384));
    assert!(hybrid.deallocate_large(BIG_B, l).is_none());
    let first = hybrid.deallocate_large(BIG_A, l).unwrap();
    assert_eq!(first.ptr(), BIG_A);
    let last = hybrid.deallocate_large(BIG_B + 16384, l).unwrap();
    assert_eq!((last.ptr(), last.size(), last.layout().size()), (BIG_B + 16384, 5000, 5000));
    assert_eq!(hybrid.large_block_count(), 0);
}

#[test]
fn large_block_refusals() {
    let mut hybrid = HybridAllocator::new();
    let l = layout(8192, 64);
    assert_eq!(hybrid.allocate_large(0, l), None);
    assert_eq!(hybrid.allocate_large(BIG_A + 32, l), None);
    assert_eq!(hybrid.allocate_large(BIG_A, layout(0, 64)), None);
    assert_eq!(hybrid.allocate_large(usize::MAX - 63, l), None);
    assert_eq!(hybrid.allocate_large(BIG_A, l), Some(BIG_A));
    assert_eq!(hybrid.allocate_large(BIG_A, l), None);
    assert_eq!(hybrid.allocate_large(BIG_A + 8128, l), None);
    assert_eq!(hybrid.allocate_large(BIG_A + 8192, l), Some(BIG_A + 8192));
    assert_eq!(hybrid.large_block_count(), 2);
}

#[test]
fn fresh_memory_that_overlaps_is_refused() {
    let mut hybrid = HybridAllocator::new();
    let small = layout(16, 8);
    let mid = layout(4000, 8);
    let big = layout(100000, 8);
    assert!(hybrid.allocate_fresh(small, PAGE_A).is_some());
    assert!(hybrid.allocate_fresh(mid, CHUNK_A).is_some());
    assert!(hybrid.allocate_fresh(big, BIG_A).is_some());
    assert_eq!(hybrid.allocate_fresh(small, PAGE_A), None);
    assert_eq!(hybrid.allocate_fresh(small, CHUNK_A + 4096), None);
    assert_eq!(hybrid.allocate_fresh(small, BIG_A + 4096), None);
    assert_eq!(hybrid.allocate_fresh(mid, 16), None);
    assert_eq!(hybrid.allocate_fresh(mid, BIG_A), None);
    assert_eq!(hybrid.allocate_fresh(big, CHUNK_A + 64), None);
    assert_eq!(hybrid.allocate_fresh(big, PAGE_A - 99984), None);
    assert_eq!(hybrid.allocate_fresh(small, 0), None);
    assert_eq!(hybrid.allocate_fresh(mid, CHUNK_B + 8), None);
    assert_eq!(hybrid.slab().page_count(0), 1);
    assert_eq!(hybrid.arena().arena_count(), 1);
    assert_eq!(hybrid.large_block_count(), 1);
    assert!(hybrid.overlaps(PAGE_A + 100, 1));
    assert!(hybrid.overlaps(CHUNK_A + ARENA_SIZE - 1, 1));
    assert!(hybrid.overlaps(BIG_A + 99999, 1));
    assert!(!hybrid.overlaps(BIG_A + 100000, 1));
    assert!(hybrid.allocate_fresh(small, PAGE_B).is_some());
}

#[test]
fn allocate_free_allocate_on_every_route() {
    let mut hybrid = HybridAllocator::new();
    let fresh = [PAGE_A, PAGE_B, CHUNK_A, BIG_A, BIG_B];
    let mut next = 0usize;
    let layouts = [layout(1, 1), layout(2048, 16), layout(3000, 8), layout(4097, 64), layout(65536, 4096)];
    for l in layouts {
        let first = match hybrid.allocate(l) {
            Some(p) => p,
            None => {
                let p = hybrid.allocate_fresh(l, fresh[next]).unwrap();
                next += 1;
                p
            },
        };
        assert_eq!(first % l.align(), 0);
        assert!(hybrid.can_deallocate(first, l));
        let released = hybrid.deallocate(first, l);
        assert_eq!(released.is_some(), route(l) == Route::Large);
        let second = match hybrid.allocate(l) {
            Some(p) => p,
            None => hybrid.allocate_fresh(l, fresh[next - 1]).unwrap(),
        };
        assert_eq!(second % l.align(), 0);
        if route(l) == Route::Slab {
            assert_eq!(second, first);
        }
    }
}

#[test]
fn live_blocks_of_all_routes_never_overlap() {
    let mut hybrid = HybridAllocator::new();
    let mut blocks: Vec<(usize, usize)> = Vec::new();
    let mut pages: Vec<usize> = (0..16).map(|i| PAGE_A + i * 4096).collect();
    let mut chunks = vec![CHUNK_A, CHUNK_B];
    let mut bigs = vec![BIG_A, BIG_B];
    let sizes = [16usize, 2048, 2048, 2048, 100, 3000, 4096, 5000, 16, 1024, 70000, 2500, 33];
    for round in 0..4 {
        for s in sizes {
            let l = layout(s, 8);
            let p = match hybrid.allocate(l) {
                Some(p) => p,
                None => {
                    let fresh = match route(l) {
                        Route::Slab => pages.pop().unwrap(),
                        Route::Arena => chunks.pop().unwrap(),
                        Route::Large => bigs.pop().unwrap(),
                    };
                    hybrid.allocate_fresh(l, fresh).unwrap()
                },
            };
            blocks.push((p, s));
            assert!(disjoint(&blocks));
            if route(l) == Route::Large || (round == 1 && s == 2048) {
                let released = hybrid.deallocate(p, l);
                blocks.pop();
                if let Some(record) = released {
                    bigs.push(record.ptr());
                }
            }
        }
    }
    assert!(disjoint(&blocks));
    assert!(blocks.len() > 30);
}

#[test]
fn can_deallocate_tells_live_chunks() {
    let mut hybrid = HybridAllocator::new();
    let l = layout(64, 8);
    assert!(!hybrid.can_deallocate(PAGE_A, l));
    let p = hybrid.allocate_fresh(l, PAGE_A).unwrap();
    assert!(hybrid.can_deallocate(p, l));
    assert!(!hybrid.can_deallocate(p, layout(16, 8)));
    assert!(!hybrid.can_deallocate(p + 8, l));
    assert!(hybrid.can_deallocate(p, layout(3000, 8)));
    assert!(hybrid.deallocate(p, l).is_none());
    assert!(!hybrid.can_deallocate(p, l));
}

#[test]
fn global_handle_round_trip() {
    let mut global = GlobalCustomAllocator::new();
    let small = layout(24, 8);
    let large = layout(8192, 8);
    assert_eq!(global.allocate(small), None);
    let p = global.allocate_fresh(small, PAGE_A).unwrap();
    assert_eq!(p, PAGE_A + 4096 - 32);
    assert!(global.can_dealloc(p, small));
    assert!(global.dealloc(p, small).is_none());
    assert!(!global.can_dealloc(p, small));
    assert_eq!(global.allocate(small), Some(p));
    assert_eq!(global.allocate_fresh(large, BIG_A), Some(BIG_A));
    assert_eq!(global.allocator().large_block_count(), 1);
    let record = global.dealloc(BIG_A, large).unwrap();
    assert_eq!(record.ptr(), BIG_A);
    assert_eq!(global.allocator().large_block_count(), 0);
}
