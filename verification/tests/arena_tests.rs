use customallocator::arena::{ArenaAllocator, ArenaNode, ARENA_ALIGN, ARENA_SIZE};
use customallocator::layout::Layout;

const CHUNK_A: usize = 0x1000_0000;
const CHUNK_B: usize = 0x2000_0000;

fn layout(size: usize, align: usize) -> Layout {
    Layout::from_size_align(size, align).unwrap()
}

#[test]
fn arena_constants() {
    assert_eq!(ARENA_SIZE, 4 * 1024 * 1024);
    assert_eq!(ARENA_ALIGN, 16);
}

#[test]
fn arena_node_describes_a_chunk() {
    let node = ArenaNode::new(CHUNK_A, ARENA_SIZE).unwrap();
    assert_eq!(node.data(), CHUNK_A);
    assert_eq!(node.size(), ARENA_SIZE);
}

#[test]
fn arena_node_refuses_bad_chunks() {
    assert!(ArenaNode::new(0, ARENA_SIZE).is_none());
    assert!(ArenaNode::new(CHUNK_A + 8, ARENA_SIZE).is_none());
    assert!(ArenaNode::new(usize::MAX - 15, ARENA_SIZE).is_none());
}

#[test]
fn arena_starts_without_chunks() {
    let arena = ArenaAllocator::new();
    assert_eq!(arena.arena_count(), 0);
    assert_eq!(arena.current_offset(), 0);
}

#[test]
fn arena_without_chunk_cannot_serve() {
    let mut arena = ArenaAllocator::new();
    assert_eq!(arena.allocate(layout(64, 8)), None);
    assert_eq!(arena.arena_count(), 0);
    assert_eq!(arena.current_offset(), 0);
}

#[test]
fn arena_bumps_and_aligns() {
    let mut arena = ArenaAllocator::new();
    assert!(arena.create_arena(CHUNK_A));
    assert_eq!(arena.allocate(layout(24, 8)), Some(CHUNK_A));
    assert_eq!(arena.current_offset(), 24);
    assert_eq!(arena.allocate(layout(10, 16)), Some(CHUNK_A + 32));
    assert_eq!(arena.current_offset(), 42);
    assert_eq!(arena.allocate(layout(1, 1)), Some(CHUNK_A + 42));
    assert_eq!(arena.allocate(layout(8, 8)), Some(CHUNK_A + 48));
    assert_eq!(arena.current_offset(), 56);
}

#[test]
fn arena_serves_a_whole_chunk_and_no_more() {
    let mut arena = ArenaAllocator::new();
    assert!(arena.create_arena(CHUNK_A));
    assert_eq!(arena.allocate(layout(ARENA_SIZE, 16)), Some(CHUNK_A));
    assert_eq!(arena.current_offset(), ARENA_SIZE);
    assert_eq!(arena.allocate(layout(1, 1)), None);
    assert_eq!(arena.current_offset(), ARENA_SIZE);
}

#[test]
fn arena_never_serves_more_than_a_chunk_holds() {
    let mut arena = ArenaAllocator::new();
    assert!(arena.create_arena(CHUNK_A));
    assert_eq!(arena.allocate(layout(ARENA_SIZE + 1, 1)), None);
    assert!(arena.create_arena(CHUNK_B));
    assert_eq!(arena.allocate(layout(ARENA_SIZE + 1, 1)), None);
}

#[test]
fn arena_refuses_bad_chunks() {
    let mut arena = ArenaAllocator::new();
    assert!(!arena.create_arena(0));
    assert!(!arena.create_arena(CHUNK_A + 4));
    assert!(arena.create_arena(CHUNK_A));
    assert!(!arena.create_arena(CHUNK_A));
    assert!(!arena.create_arena(CHUNK_A + ARENA_SIZE - 16));
    assert!(!arena.create_arena(CHUNK_A - 16));
    assert_eq!(arena.arena_count(), 1);
    assert!(arena.create_arena(CHUNK_A + ARENA_SIZE));
    assert_eq!(arena.arena_count(), 2);
}

#[test]
fn arena_overlap_test() {
    let mut arena = ArenaAllocator::new();
    assert!(!arena.overlaps(CHUNK_A, 16));
    assert!(arena.create_arena(CHUNK_A));
    assert!(arena.overlaps(CHUNK_A, 1));
    assert!(arena.overlaps(CHUNK_A + ARENA_SIZE - 1, 1));
    assert!(!arena.overlaps(CHUNK_A + ARENA_SIZE, 1));
    assert!(!arena.overlaps(CHUNK_A - 1, 1));
    assert!(!arena.overlaps(CHUNK_A, 0));
}

#[test]
fn arena_growth_links_a_second_chunk_at_offset_zero() {
    let mut arena = ArenaAllocator::new();
    assert!(arena.create_arena(CHUNK_A));
    let page = layout(4096, 16);
    let per_chunk = ARENA_SIZE / 4096;
    for i in 0..per_chunk {
        assert_eq!(arena.allocate(page), Some(CHUNK_A + i * 4096));
    }
    assert_eq!(arena.current_offset(), ARENA_SIZE);
    assert_eq!(arena.allocate(page), None);
    assert_eq!(arena.arena_count(), 1);
    assert!(arena.create_arena(CHUNK_B));
    assert_eq!(arena.arena_count(), 2);
    assert_eq!(arena.current_offset(), 0);
    assert_eq!(arena.allocate(page), Some(CHUNK_B));
    assert_eq!(arena.current_offset(), 4096);
}

#[test]
fn arena_leaves_the_rest_of_an_old_chunk_unused() {
    let mut arena = ArenaAllocator::new();
    assert!(arena.create_arena(CHUNK_A));
    assert_eq!(arena.allocate(layout(100, 4)), Some(CHUNK_A));
    assert!(arena.create_arena(CHUNK_B));
    assert_eq!(arena.allocate(layout(100, 4)), Some(CHUNK_B));
    assert_eq!(arena.allocate(layout(100, 4)), Some(CHUNK_B + 100));
}
