use customallocator::buddy::{
    block_size_of, BuddyAllocator, MAX_BLOCK_SIZE, MAX_ORDER, MIN_BLOCK_SIZE, ORDER_COUNT,
};
use customallocator::layout::Layout;

const BASE: usize = 8 * 1024 * 1024 * 16;

fn layout(size: usize) -> Layout {
    Layout::from_size_align(size, 8).unwrap()
}

fn free_lists(buddy: &BuddyAllocator) -> Vec<Vec<usize>> {
    let mut lists = Vec::new();
    for order in 0..ORDER_COUNT {
        let mut list = Vec::new();
        for i in 0..buddy.free_count(order) {
            list.push(buddy.free_block(order, i));
        }
        lists.push(list);
    }
    lists
}

#[test]
fn buddy_constants() {
    assert_eq!(MAX_ORDER, 11);
    assert_eq!(ORDER_COUNT, 12);
    assert_eq!(MIN_BLOCK_SIZE, 4096);
    assert_eq!(MAX_BLOCK_SIZE, 8 * 1024 * 1024);
}

#[test]
fn block_sizes_double_with_the_order() {
    for order in 0..ORDER_COUNT {
        assert_eq!(block_size_of(order), 4096usize << order);
    }
    assert_eq!(block_size_of(0), 4096);
    assert_eq!(block_size_of(11), 8388608);
}

#[test]
fn size_to_order_is_the_least_order_that_fits() {
    let buddy = BuddyAllocator::new(BASE, MAX_BLOCK_SIZE).unwrap();
    assert_eq!(buddy.size_to_order(0), 0);
    assert_eq!(buddy.size_to_order(1), 0);
    assert_eq!(buddy.size_to_order(4096), 0);
    assert_eq!(buddy.size_to_order(4097), 1);
    assert_eq!(buddy.size_to_order(8192), 1);
    assert_eq!(buddy.size_to_order(8193), 2);
    assert_eq!(buddy.size_to_order(1 << 20), 8);
    assert_eq!(buddy.size_to_order(4194305), 11);
    assert_eq!(buddy.size_to_order(8388608), 11);
}

#[test]
fn size_to_order_stops_at_the_highest_order() {
    let buddy = BuddyAllocator::new(BASE, MAX_BLOCK_SIZE).unwrap();
    assert_eq!(buddy.size_to_order(8388609), 11);
    assert_eq!(buddy.size_to_order(usize::MAX), 11);
}

#[test]
fn buddy_starts_as_one_free_block() {
    let buddy = BuddyAllocator::new(BASE, MAX_BLOCK_SIZE).unwrap();
    assert_eq!(buddy.base_ptr(), BASE);
    assert_eq!(buddy.total_size(), MAX_BLOCK_SIZE);
    let lists = free_lists(&buddy);
    for order in 0..11 {
        assert!(lists[order].is_empty());
    }
    assert_eq!(lists[11], vec![BASE]);

    let small = BuddyAllocator::new(BASE, 16384).unwrap();
    let lists = free_lists(&small);
    assert_eq!(lists[2], vec![BASE]);
    assert_eq!(lists.iter().map(|l| l.len()).sum::<usize>(), 1);
}

#[test]
fn buddy_refuses_bad_regions() {
    assert!(BuddyAllocator::new(0, MAX_BLOCK_SIZE).is_none());
    assert!(BuddyAllocator::new(BASE + 4096, MAX_BLOCK_SIZE).is_none());
    assert!(BuddyAllocator::new(BASE, 5000).is_none());
    assert!(BuddyAllocator::new(BASE, 0).is_none());
    assert!(BuddyAllocator::new(BASE, 3 * 4096).is_none());
    assert!(BuddyAllocator::new(BASE, 2 * MAX_BLOCK_SIZE).is_none());
    assert!(BuddyAllocator::new(BASE, 4096).is_some());
}

#[test]
fn buddy_splits_down_to_the_order_needed() {
    let mut buddy = BuddyAllocator::new(BASE, MAX_BLOCK_SIZE).unwrap();
    assert_eq!(buddy.allocate(layout(100)), Some(BASE));
    let lists = free_lists(&buddy);
    for order in 0..11 {
        assert_eq!(lists[order], vec![BASE + (4096usize << order)]);
    }
    assert!(lists[11].is_empty());
    assert_eq!(buddy.allocate(layout(4096)), Some(BASE + 4096));
    assert_eq!(buddy.free_count(0), 0);
    assert_eq!(buddy.allocate(layout(4096)), Some(BASE + 8192));
    assert_eq!(free_lists(&buddy)[0], vec![BASE + 8192 + 4096]);
    assert_eq!(buddy.free_count(1), 0);
}

#[test]
fn buddy_blocks_are_aligned_to_their_size() {
    let mut buddy = BuddyAllocator::new(BASE, MAX_BLOCK_SIZE).unwrap();
    let p = buddy.allocate(layout(4096)).unwrap();
    let q = buddy.allocate(layout(65536)).unwrap();
    let r = buddy.allocate(layout(4097)).unwrap();
    assert_eq!(p % 4096, 0);
    assert_eq!(q % 65536, 0);
    assert_eq!(r % 8192, 0);
    assert_eq!(q, BASE + 65536);
    assert_eq!(r, BASE + 8192);
}

#[test]
fn buddy_merges_two_siblings_into_one_block() {
    let mut buddy = BuddyAllocator::new(BASE, 16384).unwrap();
    let l = layout(4096);
    let a = buddy.allocate(l).unwrap();
    let b = buddy.allocate(l).unwrap();
    assert_eq!(a, BASE);
    assert_eq!(b, BASE + 4096);
    assert_eq!(free_lists(&buddy)[1], vec![BASE + 8192]);
    assert_eq!(buddy.free_count(0), 0);
    let c = buddy.allocate(layout(8192)).unwrap();
    assert_eq!(c, BASE + 8192);
    buddy.deallocate(a, l);
    assert_eq!(free_lists(&buddy)[0], vec![a]);
    assert_eq!(buddy.free_count(1), 0);
    buddy.deallocate(b, l);
    let lists = free_lists(&buddy);
    assert!(lists[0].is_empty());
    assert_eq!(lists[1], vec![BASE]);
    assert_eq!(block_size_of(1), 2 * 4096);
    assert!(lists[2].is_empty());
}

#[test]
fn buddy_merges_whichever_sibling_is_freed_last() {
    let mut buddy = BuddyAllocator::new(BASE, 16384).unwrap();
    let l = layout(4096);
    let a = buddy.allocate(l).unwrap();
    let b = buddy.allocate(l).unwrap();
    let c = buddy.allocate(layout(8192)).unwrap();
    buddy.deallocate(b, l);
    buddy.deallocate(a, l);
    let lists = free_lists(&buddy);
    assert!(lists[0].is_empty());
    assert_eq!(lists[1], vec![BASE]);
    buddy.deallocate(c, layout(8192));
    let lists = free_lists(&buddy);
    assert!(lists[1].is_empty());
    assert_eq!(lists[2], vec![BASE]);
}

#[test]
fn buddy_merges_back_to_the_whole_region() {
    let mut buddy = BuddyAllocator::new(BASE, MAX_BLOCK_SIZE).unwrap();
    let l = layout(1);
    let p = buddy.allocate(l).unwrap();
    buddy.deallocate(p, l);
    let lists = free_lists(&buddy);
    for order in 0..11 {
        assert!(lists[order].is_empty());
    }
    assert_eq!(lists[11], vec![BASE]);
}

#[test]
fn buddy_does_not_merge_with_a_block_in_use() {
    let mut buddy = BuddyAllocator::new(BASE, 16384).unwrap();
    let l = layout(4096);
    let a = buddy.allocate(l).unwrap();
    let b = buddy.allocate(l).unwrap();
    buddy.deallocate(a, l);
    let lists = free_lists(&buddy);
    assert_eq!(lists[0], vec![a]);
    assert_eq!(lists[1], vec![BASE + 8192]);
    assert_eq!(buddy.allocate(l), Some(a));
    buddy.deallocate(b, l);
    assert_eq!(free_lists(&buddy)[0], vec![b]);
}

#[test]
fn buddy_fails_when_nothing_is_free() {
    let mut buddy = BuddyAllocator::new(BASE, 8192).unwrap();
    assert_eq!(buddy.allocate(layout(8192)), Some(BASE));
    assert_eq!(buddy.allocate(layout(1)), None);
    assert_eq!(buddy.allocate(layout(8192)), None);
    let lists = free_lists(&buddy);
    assert!(lists.iter().all(|l| l.is_empty()));
}

#[test]
fn buddy_fails_on_a_request_above_the_largest_block() {
    let mut buddy = BuddyAllocator::new(BASE, MAX_BLOCK_SIZE).unwrap();
    assert_eq!(buddy.allocate(layout(MAX_BLOCK_SIZE + 1)), None);
    assert_eq!(free_lists(&buddy)[11], vec![BASE]);
    assert_eq!(buddy.allocate(layout(MAX_BLOCK_SIZE)), Some(BASE));
}

#[test]
fn buddy_fails_when_only_smaller_blocks_are_free() {
    let mut buddy = BuddyAllocator::new(BASE, 16384).unwrap();
    let a = buddy.allocate(layout(4096)).unwrap();
    assert_eq!(buddy.allocate(layout(16384)), None);
    assert_eq!(buddy.allocate(layout(8192)), Some(BASE + 8192));
    assert_eq!(buddy.allocate(layout(8192)), None);
    assert_eq!(buddy.allocate(layout(4096)), Some(BASE + 4096));
    assert_eq!(a, BASE);
}

#[test]
fn buddy_removes_a_block_from_the_middle_of_a_list() {
    let mut buddy = BuddyAllocator::new(BASE, 32768).unwrap();
    let l = layout(4096);
    let blocks: Vec<usize> = (0..8).map(|_| buddy.allocate(l).unwrap()).collect();
    buddy.deallocate(blocks[0], l);
    buddy.deallocate(blocks[2], l);
    buddy.deallocate(blocks[4], l);
    assert_eq!(free_lists(&buddy)[0], vec![blocks[0], blocks[2], blocks[4]]);
    assert!(buddy.try_remove_from_free_list(blocks[2], 0));
    assert_eq!(free_lists(&buddy)[0], vec![blocks[0], blocks[4]]);
    assert!(!buddy.try_remove_from_free_list(blocks[2], 0));
    assert!(!buddy.try_remove_from_free_list(blocks[0], 1));
    assert_eq!(free_lists(&buddy)[0], vec![blocks[0], blocks[4]]);
}

#[test]
fn buddy_split_block_pushes_the_upper_halves() {
    let mut buddy = BuddyAllocator::new(BASE, 32768).unwrap();
    assert!(buddy.try_remove_from_free_list(BASE, 3));
    buddy.split_block(BASE, 3, 1);
    let lists = free_lists(&buddy);
    assert!(lists[0].is_empty());
    assert_eq!(lists[1], vec![BASE + 8192]);
    assert_eq!(lists[2], vec![BASE + 16384]);
    assert!(lists[3].is_empty());
    buddy.merge_and_free(BASE, 1);
    let lists = free_lists(&buddy);
    assert!(lists[1].is_empty());
    assert!(lists[2].is_empty());
    assert_eq!(lists[3], vec![BASE]);
}

#[test]
fn buddy_live_blocks_never_overlap() {
    let mut buddy = BuddyAllocator::new(BASE, 1 << 20).unwrap();
    let sizes = [4096usize, 8192, 5000, 70000, 4096, 16384, 1, 131072, 4096];
    let mut blocks: Vec<(usize, usize)> = Vec::new();
    for s in sizes {
        let p = buddy.allocate(layout(s)).unwrap();
        assert!(BASE <= p && p + s <= BASE + (1 << 20));
        blocks.push((p, s));
    }
    buddy.deallocate(blocks[1].0, layout(blocks[1].1));
    buddy.deallocate(blocks[4].0, layout(blocks[4].1));
    blocks.remove(4);
    blocks.remove(1);
    for s in [4096usize, 4096, 8192] {
        blocks.push((buddy.allocate(layout(s)).unwrap(), s));
    }
    for i in 0..blocks.len() {
        for j in (i + 1)..blocks.len() {
            let (a, n) = blocks[i];
            let (b, m) = blocks[j];
            assert!(a + n <= b || b + m <= a);
        }
    }
}

#[test]
fn buddy_tells_what_may_be_freed() {
    let mut buddy = BuddyAllocator::new(BASE, 32768).unwrap();
    let l = layout(4096);
    assert!(!buddy.can_deallocate(BASE, l));
    let a = buddy.allocate(l).unwrap();
    assert!(buddy.can_deallocate(a, l));
    assert!(!buddy.can_deallocate(a, layout(8192)));
    assert!(!buddy.can_deallocate(a + 8, l));
    assert!(!buddy.can_deallocate(a + 4096, l));
    assert!(!buddy.can_deallocate(BASE - 4096, l));
    assert!(!buddy.can_deallocate(BASE + 32768, l));
    buddy.deallocate(a, l);
    assert!(!buddy.can_deallocate(a, l));
    let whole = buddy.allocate(layout(32768)).unwrap();
    assert!(buddy.can_deallocate(whole, layout(32768)));
}
