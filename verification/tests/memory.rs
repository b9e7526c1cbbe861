use nea::arena::{
    allocate, allocate_in_current_bucket, allocate_without_fallback, roc_alloc, roc_realloc,
    Allocation, Arena, ARENA_INDEX_BEFORE_MAIN, ARENA_INDEX_EXECUTOR, ARENA_INDEX_REACTOR,
    ARENA_INDEX_UNINITIALIZED,
};
use nea::shared::allocator::{take_from_top, Layout, ServerAlloc, INITIAL_ARENA_SIZE};

fn layout(size: usize, align: usize) -> Layout {
    Layout::from_size_align(size, align).unwrap()
}

fn memory() -> ServerAlloc {
    let mut memory = ServerAlloc::new(0x10_0000);
    memory.initialize_buckets(0x100_0000, 4, 1024);
    memory
}

#[test]
fn layouts_are_checked() {
    assert!(Layout::from_size_align(10, 3).is_none());
    assert!(Layout::from_size_align(10, 0).is_none());
    assert!(Layout::from_size_align(isize::MAX as usize, 2).is_none());
    let valid = Layout::from_size_align(10, 4).unwrap();
    assert_eq!(valid.size(), 10);
    assert_eq!(valid.align(), 4);
    for align in [0usize, 1, 2, 3, 4, 6, 8, 4096] {
        for size in [0usize, 1, 1000, isize::MAX as usize - 7, isize::MAX as usize, usize::MAX] {
            let expected = std::alloc::Layout::from_size_align(size, align).is_ok();
            assert_eq!(Layout::from_size_align(size, align).is_some(), expected);
        }
    }
}

#[test]
fn blocks_are_taken_from_the_top_and_aligned() {
    assert_eq!(take_from_top(layout(10, 8), 100), Some(88));
    assert_eq!(take_from_top(layout(88, 8), 88), Some(0));
    assert_eq!(take_from_top(layout(1, 1), 0), None);
    assert_eq!(take_from_top(layout(0, 1), 0), Some(0));
    assert_eq!(take_from_top(layout(101, 1), 100), None);
    // what is left after aligning may be less than what was asked to stay
    assert_eq!(take_from_top(layout(4, 64), 100), Some(64));
    assert_eq!(take_from_top(layout(40, 64), 100), Some(0));
}

#[test]
fn blocks_of_a_bucket_never_overlap() {
    let mut memory = memory();
    let mut previous: usize = 0x100_0000 + 2 * 1024 + 1024;
    for size in [1usize, 100, 3, 64, 500] {
        let address = memory.try_allocate_in_bucket(layout(size, 8), 2).unwrap();
        assert!(address + size <= previous);
        assert!(address >= 0x100_0000 + 2 * 1024);
        assert_eq!(address % 8, 0);
        previous = address;
    }
}

#[test]
fn a_full_bucket_refuses_and_a_wiped_one_serves_again() {
    let mut memory = memory();
    assert_eq!(
        memory.try_allocate_in_bucket(layout(1024, 1), 1),
        Some(0x100_0000 + 1024)
    );
    assert_eq!(memory.try_allocate_in_bucket(layout(1, 1), 1), None);
    // the other buckets do not suffer
    assert_eq!(
        memory.try_allocate_in_bucket(layout(24, 8), 0),
        Some(0x100_0000 + 1000)
    );
    memory.clear_bucket(1);
    assert_eq!(
        memory.try_allocate_in_bucket(layout(24, 8), 1),
        Some(0x100_0000 + 1024 + 1000)
    );
}

#[test]
fn the_initial_arena_is_used_up_once() {
    let mut memory = memory();
    assert_eq!(
        memory.try_allocate_in_initial_bucket(layout(INITIAL_ARENA_SIZE, 1)),
        Some(0x10_0000)
    );
    assert_eq!(memory.try_allocate_in_initial_bucket(layout(1, 1)), None);
}

#[test]
fn arenas_have_numbers() {
    assert_eq!(Arena::from_index(ARENA_INDEX_BEFORE_MAIN), Arena::BeforeMain);
    assert_eq!(Arena::from_index(u32::MAX - 1), Arena::Executor);
    assert_eq!(Arena::from_index(u32::MAX - 2), Arena::Reactor);
    assert_eq!(Arena::from_index(u32::MAX - 3), Arena::Uninitialized);
    assert_eq!(Arena::from_index(63), Arena::Bucket(63));
}

#[test]
fn threads_allocate_in_their_arena() {
    let mut memory = memory();
    let top = 0x10_0000 + INITIAL_ARENA_SIZE;
    assert_eq!(
        allocate(&mut memory, ARENA_INDEX_BEFORE_MAIN, layout(16, 8)),
        Allocation::Address(top - 16)
    );
    assert_eq!(
        allocate(&mut memory, ARENA_INDEX_EXECUTOR, layout(16, 8)),
        Allocation::Address(top - 32)
    );
    assert_eq!(
        allocate(&mut memory, ARENA_INDEX_REACTOR, layout(16, 8)),
        Allocation::Address(top - 48)
    );
    assert_eq!(
        allocate(&mut memory, ARENA_INDEX_UNINITIALIZED, layout(16, 8)),
        Allocation::Null
    );
    assert_eq!(
        allocate(&mut memory, 3, layout(16, 8)),
        Allocation::Address(0x100_0000 + 4 * 1024 - 16)
    );
}

#[test]
fn only_some_arenas_fall_back_on_the_system() {
    let mut memory = memory();
    let huge = layout(INITIAL_ARENA_SIZE + 1, 1);
    assert_eq!(allocate(&mut memory, ARENA_INDEX_BEFORE_MAIN, huge), Allocation::Null);
    assert_eq!(allocate(&mut memory, ARENA_INDEX_EXECUTOR, huge), Allocation::System);
    assert_eq!(allocate(&mut memory, ARENA_INDEX_REACTOR, huge), Allocation::System);
    assert_eq!(allocate(&mut memory, 0, huge), Allocation::OutOfMemory);
    assert_eq!(
        allocate_without_fallback(&mut memory, ARENA_INDEX_EXECUTOR, huge),
        Allocation::Null
    );
    assert_eq!(
        allocate_without_fallback(&mut memory, ARENA_INDEX_UNINITIALIZED, huge),
        Allocation::Null
    );
    assert_eq!(
        allocate_without_fallback(&mut memory, 0, huge),
        Allocation::OutOfMemory
    );
}

#[test]
fn the_current_bucket_may_be_none() {
    let mut memory = memory();
    let top = 0x10_0000 + INITIAL_ARENA_SIZE;
    assert_eq!(
        allocate_in_current_bucket(&mut memory, usize::MAX, layout(8, 8)),
        Allocation::Address(top - 8)
    );
    assert_eq!(
        allocate_in_current_bucket(&mut memory, 0, layout(8, 8)),
        Allocation::Address(0x100_0000 + 1016)
    );
    assert_eq!(
        allocate_in_current_bucket(&mut memory, 0, layout(2000, 8)),
        Allocation::OutOfMemory
    );
}

#[test]
fn an_application_runs_out_of_its_own_memory_only() {
    let mut memory = memory();
    assert_eq!(
        roc_alloc(&mut memory, 1, 1000, 8),
        Allocation::Address(0x100_0000 + 1024 + 24)
    );
    assert_eq!(roc_alloc(&mut memory, 1, 32, 8), Allocation::OutOfMemory);
    assert_eq!(
        roc_alloc(&mut memory, 2, 32, 8),
        Allocation::Address(0x100_0000 + 3 * 1024 - 32)
    );
}

#[test]
fn a_grown_block_keeps_its_bytes() {
    let mut memory = memory();
    roc_alloc(&mut memory, 0, 16, 8);
    let grown = roc_realloc(&mut memory, 0, 32, 16, 8);
    assert_eq!(grown, (Allocation::Address(0x100_0000 + 1024 - 16 - 32), 16));
    let shrunk = roc_realloc(&mut memory, 0, 8, 32, 8);
    assert_eq!(shrunk, (Allocation::Address(0x100_0000 + 1024 - 16 - 32 - 8), 8));
    let refused = roc_realloc(&mut memory, 0, 2000, 8, 8);
    assert_eq!(refused.0, Allocation::OutOfMemory);
}

#[test]
fn blocks_of_the_arena_are_disjoint_and_aligned() {
    let start = 0x10_0000;
    let mut memory = ServerAlloc::new(start);
    let mut end = start + INITIAL_ARENA_SIZE;
    for (size, align) in [(1, 1), (100, 64), (3, 4096), (0, 8), (5000, 2), (7, 1024)] {
        let address = memory.try_allocate_in_initial_bucket(layout(size, align)).unwrap();
        assert_eq!(address % align, 0);
        assert!(start <= address && address + size <= end);
        end = address;
    }
    assert_eq!(memory.try_allocate_in_initial_bucket(layout(1, 8192)), None);
}
