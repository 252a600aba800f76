use customallocator::layout::Layout;
use customallocator::slab::{
    SlabAllocator, SlabList, MAX_SLAB_SIZE, SLAB_CLASSES, SLAB_PAGE_SIZE, SLAB_SIZES,
};

const PAGE_A: usize = 0x0010_0000;
const PAGE_B: usize = 0x0020_0000;
const PAGE_C: usize = 0x0030_0000;

fn layout(size: usize, align: usize) -> Layout {
    Layout::from_size_align(size, align).unwrap()
}

#[test]
fn slab_class_table() {
    assert_eq!(SLAB_SIZES, [16, 32, 64, 128, 256, 512, 1024, 2048]);
    assert_eq!(SLAB_CLASSES, 8);
    assert_eq!(MAX_SLAB_SIZE, 2048);
    assert_eq!(SLAB_PAGE_SIZE, 4096);
}

#[test]
fn size_to_index_picks_the_smallest_class_that_fits() {
    assert_eq!(SlabAllocator::size_to_index(0), Some(0));
    assert_eq!(SlabAllocator::size_to_index(1), Some(0));
    assert_eq!(SlabAllocator::size_to_index(16), Some(0));
    assert_eq!(SlabAllocator::size_to_index(17), Some(1));
    assert_eq!(SlabAllocator::size_to_index(32), Some(1));
    assert_eq!(SlabAllocator::size_to_index(33), Some(2));
    assert_eq!(SlabAllocator::size_to_index(100), Some(3));
    assert_eq!(SlabAllocator::size_to_index(200), Some(4));
    assert_eq!(SlabAllocator::size_to_index(512), Some(5));
    assert_eq!(SlabAllocator::size_to_index(1000), Some(6));
    assert_eq!(SlabAllocator::size_to_index(1025), Some(7));
    assert_eq!(SlabAllocator::size_to_index(2048), Some(7));
}

#[test]
fn size_to_index_rejects_sizes_above_the_largest_class() {
    assert_eq!(SlabAllocator::size_to_index(2049), None);
    assert_eq!(SlabAllocator::size_to_index(4096), None);
    assert_eq!(SlabAllocator::size_to_index(usize::MAX), None);
}

#[test]
fn slab_list_of_each_class() {
    for idx in 0..SLAB_CLASSES {
        let list = SlabList::new(idx);
        assert_eq!(list.chunk_size(), SLAB_SIZES[idx]);
        assert_eq!(list.chunks_per_slab(), 4096 / SLAB_SIZES[idx]);
        assert_eq!(list.free_count(), 0);
        assert_eq!(list.page_count(), 0);
    }
}

#[test]
fn slab_list_hands_out_the_last_chunk_first() {
    let mut list = SlabList::new(6);
    list.add_page(PAGE_A);
    assert_eq!(list.free_count(), 4);
    assert_eq!(list.page_count(), 1);
    assert_eq!(list.pop(), Some(PAGE_A + 3072));
    assert_eq!(list.pop(), Some(PAGE_A + 2048));
    assert_eq!(list.pop(), Some(PAGE_A + 1024));
    assert_eq!(list.pop(), Some(PAGE_A));
    assert_eq!(list.pop(), None);
    assert_eq!(list.free_count(), 0);
}

#[test]
fn slab_list_tells_live_chunks() {
    let mut list = SlabList::new(6);
    list.add_page(PAGE_A);
    assert!(!list.is_allocated(PAGE_A + 3072));
    let p = list.pop().unwrap();
    assert!(list.is_allocated(p));
    assert!(!list.is_allocated(p + 8));
    assert!(!list.is_allocated(PAGE_A + 2048));
    assert!(!list.is_allocated(PAGE_B));
    list.push(p);
    assert!(!list.is_allocated(p));
    assert_eq!(list.pop(), Some(p));
}

#[test]
fn slab_list_finds_pages_and_overlaps() {
    let mut list = SlabList::new(0);
    list.add_page(PAGE_A);
    list.add_page(PAGE_B);
    assert_eq!(list.find_page(PAGE_A), Some(0));
    assert_eq!(list.find_page(PAGE_A + 4095), Some(0));
    assert_eq!(list.find_page(PAGE_A + 4096), None);
    assert_eq!(list.find_page(PAGE_B + 17), Some(1));
    assert!(list.overlaps(PAGE_B + 4095, 10));
    assert!(!list.overlaps(PAGE_B + 4096, 10));
    assert!(!list.overlaps(PAGE_A, 0));
}

#[test]
fn slab_starts_with_no_class_set_up() {
    let slab = SlabAllocator::new();
    for idx in 0..SLAB_CLASSES {
        assert_eq!(slab.free_count(idx), 0);
        assert_eq!(slab.page_count(idx), 0);
    }
}

#[test]
fn slab_without_pages_cannot_serve() {
    let mut slab = SlabAllocator::new();
    assert_eq!(slab.allocate(layout(24, 8)), None);
    assert_eq!(slab.free_count(1), 0);
    assert_eq!(slab.page_count(1), 0);
}

#[test]
fn slab_rejects_sizes_above_the_largest_class() {
    let mut slab = SlabAllocator::new();
    assert!(slab.allocate_new_slab(7, PAGE_A));
    assert_eq!(slab.allocate(layout(2049, 8)), None);
    assert_eq!(slab.free_count(7), 2);
    assert!(!slab.is_allocated(PAGE_A, layout(2049, 8)));
    slab.deallocate(PAGE_A, layout(4096, 8));
    assert_eq!(slab.free_count(7), 2);
}

#[test]
fn slab_page_is_cut_into_chunks() {
    for idx in 0..SLAB_CLASSES {
        let mut slab = SlabAllocator::new();
        assert!(slab.allocate_new_slab(idx, PAGE_A));
        assert_eq!(slab.page_count(idx), 1);
        assert_eq!(slab.free_count(idx), 4096 / SLAB_SIZES[idx]);
        for other in 0..SLAB_CLASSES {
            if other != idx {
                assert_eq!(slab.free_count(other), 0);
                assert_eq!(slab.page_count(other), 0);
            }
        }
    }
}

#[test]
fn slab_allocates_from_the_top_of_a_page() {
    let mut slab = SlabAllocator::new();
    assert!(slab.allocate_new_slab(2, PAGE_A));
    let l = layout(40, 8);
    assert_eq!(slab.allocate(l), Some(PAGE_A + 4096 - 64));
    assert_eq!(slab.allocate(l), Some(PAGE_A + 4096 - 128));
    assert_eq!(slab.free_count(2), 62);
}

#[test]
fn slab_reuses_the_chunk_freed_last() {
    let mut slab = SlabAllocator::new();
    assert!(slab.allocate_new_slab(0, PAGE_A));
    let l = layout(16, 16);
    let a = slab.allocate(l).unwrap();
    let b = slab.allocate(l).unwrap();
    let c = slab.allocate(l).unwrap();
    assert!(a != b && b != c && a != c);
    slab.deallocate(a, l);
    slab.deallocate(c, l);
    assert_eq!(slab.allocate(l), Some(c));
    assert_eq!(slab.allocate(l), Some(a));
    assert_eq!(slab.allocate(l), Some(PAGE_A + 4096 - 64));
    slab.deallocate(b, l);
    assert_eq!(slab.allocate(l), Some(b));
}

#[test]
fn slab_allocate_free_allocate_is_aligned_each_time() {
    for idx in 0..SLAB_CLASSES {
        let mut slab = SlabAllocator::new();
        assert!(slab.allocate_new_slab(idx, PAGE_A));
        let l = layout(SLAB_SIZES[idx], 16);
        let first = slab.allocate(l).unwrap();
        assert_eq!(first % 16, 0);
        assert!(slab.is_allocated(first, l));
        slab.deallocate(first, l);
        assert!(!slab.is_allocated(first, l));
        let second = slab.allocate(l).unwrap();
        assert_eq!(second % 16, 0);
        assert_eq!(second, first);
    }
}

#[test]
fn slab_refuses_bad_pages() {
    let mut slab = SlabAllocator::new();
    assert!(!slab.allocate_new_slab(0, 0));
    assert!(!slab.allocate_new_slab(0, PAGE_A + 8));
    assert!(!slab.allocate_new_slab(0, usize::MAX - 15));
    assert!(slab.allocate_new_slab(0, PAGE_A));
    assert!(!slab.allocate_new_slab(0, PAGE_A));
    assert!(!slab.allocate_new_slab(3, PAGE_A + 2048));
    assert!(!slab.allocate_new_slab(3, PAGE_A - 2048));
    assert_eq!(slab.page_count(0), 1);
    assert_eq!(slab.page_count(3), 0);
    assert_eq!(slab.free_count(0), 256);
    assert!(slab.allocate_new_slab(3, PAGE_A + 4096));
}

#[test]
fn slab_free_lists_stay_inside_the_pages_of_their_class() {
    let mut slab = SlabAllocator::new();
    assert!(slab.allocate_new_slab(1, PAGE_A));
    assert!(slab.allocate_new_slab(4, PAGE_B));
    assert!(slab.allocate_new_slab(1, PAGE_C));
    let small = layout(32, 8);
    let mid = layout(256, 8);
    let mut taken = Vec::new();
    for _ in 0..200 {
        let p = slab.allocate(small).unwrap();
        assert!((PAGE_A <= p && p + 32 <= PAGE_A + 4096) || (PAGE_C <= p && p + 32 <= PAGE_C + 4096));
        taken.push(p);
    }
    for _ in 0..16 {
        let p = slab.allocate(mid).unwrap();
        assert!(PAGE_B <= p && p + 256 <= PAGE_B + 4096);
    }
    assert_eq!(slab.allocate(mid), None);
    for p in taken {
        slab.deallocate(p, small);
    }
    for _ in 0..256 {
        let p = slab.allocate(small).unwrap();
        assert!((PAGE_A <= p && p + 32 <= PAGE_A + 4096) || (PAGE_C <= p && p + 32 <= PAGE_C + 4096));
    }
    assert_eq!(slab.allocate(small), None);
}

#[test]
fn slab_live_chunks_never_overlap() {
    let mut slab = SlabAllocator::new();
    assert!(slab.allocate_new_slab(0, PAGE_A));
    assert!(slab.allocate_new_slab(5, PAGE_B));
    let mut blocks: Vec<(usize, usize)> = Vec::new();
    for _ in 0..256 {
        blocks.push((slab.allocate(layout(9, 1)).unwrap(), 16));
    }
    for _ in 0..8 {
        blocks.push((slab.allocate(layout(300, 4)).unwrap(), 512));
    }
    for i in 0..blocks.len() {
        for j in (i + 1)..blocks.len() {
            let (a, n) = blocks[i];
            let (b, m) = blocks[j];
            assert!(a + n <= b || b + m <= a);
        }
    }
}

#[test]
fn slab_overlap_test() {
    let mut slab = SlabAllocator::new();
    assert!(!slab.overlaps(PAGE_A, 4096));
    assert!(slab.allocate_new_slab(6, PAGE_A));
    assert!(slab.overlaps(PAGE_A + 4095, 1));
    assert!(!slab.overlaps(PAGE_A + 4096, 4096));
}

#[test]
fn slab_sets_a_class_up_once() {
    let mut slab = SlabAllocator::new();
    slab.get_or_create_slab_list(3);
    assert_eq!(slab.free_count(3), 0);
    assert!(slab.allocate_new_slab(3, PAGE_A));
    slab.get_or_create_slab_list(3);
    assert_eq!(slab.free_count(3), 32);
    assert_eq!(slab.page_count(3), 1);
}
