//! Which memory a thread allocates from.
//!
//! A thread that handles a request allocates in the bucket of that request. Everything else uses
//! the initial arena: the program before `main`, and the threads of the executor and the reactor.
use crate::shared::allocator;
use crate::shared::allocator::{Bucket, Layout, ServerAlloc};
use vstd::prelude::*;

verus! {

pub const ARENA_INDEX_BEFORE_MAIN: u32 = 0xFFFF_FFFF;

pub const ARENA_INDEX_EXECUTOR: u32 = 0xFFFF_FFFE;

pub const ARENA_INDEX_REACTOR: u32 = 0xFFFF_FFFD;

pub const ARENA_INDEX_UNINITIALIZED: u32 = 0xFFFF_FFFC;

/// The number that is given to the application along with the message "out of memory".
pub const OUT_OF_MEMORY_TAG: u32 = 1;

/// The arena of a thread.
#[derive(Debug, Clone, Copy, PartialEq, Eq, Structural)]
pub enum Arena {
    BeforeMain,
    Executor,
    Reactor,
    Uninitialized,
    Bucket(u32),
}

/// What becomes of a request for memory.
#[derive(Debug, Clone, Copy, PartialEq, Eq, Structural)]
pub enum Allocation {
    /// The memory at this address.
    Address(usize),
    /// The request is refused with a null pointer.
    Null,
    /// The system's allocator takes over.
    System,
    /// The request handler has used up its memory, and is stopped.
    OutOfMemory,
}

impl Arena {
    pub open spec fn of_index(index: u32) -> Arena {
        if index == ARENA_INDEX_BEFORE_MAIN {
            Arena::BeforeMain
        } else if index == ARENA_INDEX_EXECUTOR {
            Arena::Executor
        } else if index == ARENA_INDEX_REACTOR {
            Arena::Reactor
        } else if index == ARENA_INDEX_UNINITIALIZED {
            Arena::Uninitialized
        } else {
            Arena::Bucket(index)
        }
    }

    pub fn from_index(index: u32) -> (arena: Arena)
        ensures
            arena == Arena::of_index(index),
    {
        if index == ARENA_INDEX_BEFORE_MAIN {
            Arena::BeforeMain
        } else if index == ARENA_INDEX_EXECUTOR {
            Arena::Executor
        } else if index == ARENA_INDEX_REACTOR {
            Arena::Reactor
        } else if index == ARENA_INDEX_UNINITIALIZED {
            Arena::Uninitialized
        } else {
            Arena::Bucket(index)
        }
    }
}

/// The result of taking a block from a region, if a request that does not fit ends as `otherwise`.
pub open spec fn taken(region: Bucket, layout: Layout, otherwise: Allocation) -> Allocation {
    match allocator::remaining_after(layout, region.remaining as int) {
        Some(left) => Allocation::Address((region.start + left) as usize),
        None => otherwise,
    }
}

/// The region after a block was taken from it, if the block fits.
pub open spec fn region_after(region: Bucket, layout: Layout) -> Bucket {
    match allocator::remaining_after(layout, region.remaining as int) {
        Some(left) => Bucket { remaining: left as usize, ..region },
        None => region,
    }
}

/// The allocator after a block was taken from the initial arena.
pub open spec fn arena_used(before: ServerAlloc, after: ServerAlloc, layout: Layout) -> bool {
    &&& after.arena() == region_after(before.arena(), layout)
    &&& after.buckets() == before.buckets()
}

/// The allocator after a block was taken from a bucket: no other bucket has changed.
pub open spec fn bucket_used(
    before: ServerAlloc,
    after: ServerAlloc,
    bucket: int,
    layout: Layout,
) -> bool {
    &&& after.arena() == before.arena()
    &&& after.buckets() == before.buckets().update(
        bucket,
        region_after(before.buckets()[bucket], layout),
    )
}

fn take_from_arena(memory: &mut ServerAlloc, layout: Layout, otherwise: Allocation) -> (result:
    Allocation)
    requires
        old(memory).wf(),
        layout.wf(),
    ensures
        final(memory).wf(),
        result == taken(old(memory).arena(), layout, otherwise),
        arena_used(*old(memory), *final(memory), layout),
{
    proof {
        allocator::law_block_fits(layout, old(memory).arena().remaining as int);
    }
    match memory.try_allocate_in_initial_bucket(layout) {
        None => otherwise,
        Some(address) => Allocation::Address(address),
    }
}

fn take_from_bucket(memory: &mut ServerAlloc, bucket_index: u32, layout: Layout) -> (result:
    Allocation)
    requires
        old(memory).wf(),
        layout.wf(),
        bucket_index < old(memory).buckets().len(),
    ensures
        final(memory).wf(),
        result == taken(
            old(memory).buckets()[bucket_index as int],
            layout,
            Allocation::OutOfMemory,
        ),
        bucket_used(*old(memory), *final(memory), bucket_index as int, layout),
{
    match memory.try_allocate_in_bucket(layout, bucket_index as usize) {
        None => {
            assert(memory.buckets() =~= old(memory).buckets().update(
                bucket_index as int,
                old(memory).buckets()[bucket_index as int],
            ));
            Allocation::OutOfMemory
        },
        Some(address) => Allocation::Address(address),
    }
}

/// Allocates for a thread of the server. An executor or reactor thread that finds the arena used
/// up is almost certainly about to panic: it gets memory from the system, so that the message can
/// be put together.
pub fn allocate(memory: &mut ServerAlloc, arena_index: u32, layout: Layout) -> (result: Allocation)
    requires
        old(memory).wf(),
        layout.wf(),
        Arena::of_index(arena_index) matches Arena::Bucket(bucket) ==> bucket < old(
            memory,
        ).buckets().len(),
    ensures
        final(memory).wf(),
        match Arena::of_index(arena_index) {
            Arena::BeforeMain => {
                &&& result == taken(old(memory).arena(), layout, Allocation::Null)
                &&& arena_used(*old(memory), *final(memory), layout)
            },
            Arena::Executor | Arena::Reactor => {
                &&& result == taken(old(memory).arena(), layout, Allocation::System)
                &&& arena_used(*old(memory), *final(memory), layout)
            },
            Arena::Uninitialized => result == Allocation::Null && *final(memory) == *old(memory),
            Arena::Bucket(bucket) => {
                &&& result == taken(
                    old(memory).buckets()[bucket as int],
                    layout,
                    Allocation::OutOfMemory,
                )
                &&& bucket_used(*old(memory), *final(memory), bucket as int, layout)
            },
        },
{
    match Arena::from_index(arena_index) {
        Arena::BeforeMain => take_from_arena(memory, layout, Allocation::Null),
        Arena::Executor | Arena::Reactor => take_from_arena(memory, layout, Allocation::System),
        Arena::Uninitialized => Allocation::Null,
        Arena::Bucket(bucket_index) => take_from_bucket(memory, bucket_index, layout),
    }
}

/// Allocates for a thread of a server that never falls back to the system's allocator.
pub fn allocate_without_fallback(memory: &mut ServerAlloc, arena_index: u32, layout: Layout) -> (result:
    Allocation)
    requires
        old(memory).wf(),
        layout.wf(),
        Arena::of_index(arena_index) matches Arena::Bucket(bucket) ==> bucket < old(
            memory,
        ).buckets().len(),
    ensures
        final(memory).wf(),
        match Arena::of_index(arena_index) {
            Arena::BeforeMain | Arena::Executor | Arena::Reactor => {
                &&& result == taken(old(memory).arena(), layout, Allocation::Null)
                &&& arena_used(*old(memory), *final(memory), layout)
            },
            Arena::Uninitialized => result == Allocation::Null && *final(memory) == *old(memory),
            Arena::Bucket(bucket) => {
                &&& result == taken(
                    old(memory).buckets()[bucket as int],
                    layout,
                    Allocation::OutOfMemory,
                )
                &&& bucket_used(*old(memory), *final(memory), bucket as int, layout)
            },
        },
{
    match Arena::from_index(arena_index) {
        Arena::BeforeMain | Arena::Executor | Arena::Reactor => take_from_arena(
            memory,
            layout,
            Allocation::Null,
        ),
        Arena::Uninitialized => Allocation::Null,
        Arena::Bucket(bucket_index) => take_from_bucket(memory, bucket_index, layout),
    }
}

/// Allocates for a thread of the server that has one worker per request. `current_bucket` is the
/// largest machine word for a thread that does not serve a request.
pub fn allocate_in_current_bucket(
    memory: &mut ServerAlloc,
    current_bucket: usize,
    layout: Layout,
) -> (result: Allocation)
    requires
        old(memory).wf(),
        layout.wf(),
        current_bucket == usize::MAX || current_bucket < old(memory).buckets().len(),
    ensures
        final(memory).wf(),
        if current_bucket == usize::MAX {
            &&& result == taken(old(memory).arena(), layout, Allocation::Null)
            &&& arena_used(*old(memory), *final(memory), layout)
        } else {
            &&& result == taken(
                old(memory).buckets()[current_bucket as int],
                layout,
                Allocation::OutOfMemory,
            )
            &&& bucket_used(*old(memory), *final(memory), current_bucket as int, layout)
        },
{
    if current_bucket == usize::MAX {
        take_from_arena(memory, layout, Allocation::Null)
    } else {
        match memory.try_allocate_in_bucket(layout, current_bucket) {
            None => {
                assert(memory.buckets() =~= old(memory).buckets().update(
                    current_bucket as int,
                    old(memory).buckets()[current_bucket as int],
                ));
                Allocation::OutOfMemory
            },
            Some(address) => Allocation::Address(address),
        }
    }
}

/// The application's request for memory. It is made by a thread that serves a request.
pub fn roc_alloc(memory: &mut ServerAlloc, bucket_index: u32, size: usize, alignment: u32) -> (result:
    Allocation)
    requires
        old(memory).wf(),
        Layout::is_valid(size as int, alignment as int),
        bucket_index < old(memory).buckets().len(),
    ensures
        final(memory).wf(),
        ({
            let layout = Layout { size, align: alignment as usize };
            &&& result == taken(
                old(memory).buckets()[bucket_index as int],
                layout,
                Allocation::OutOfMemory,
            )
            &&& bucket_used(*old(memory), *final(memory), bucket_index as int, layout)
        }),
{
    match Layout::from_size_align(size, alignment as usize) {
        Some(layout) => take_from_bucket(memory, bucket_index, layout),
        None => {
            assert(false);
            Allocation::Null
        },
    }
}

/// The application's request for a block of another size: where the new block is, and how many
/// bytes of the old one are copied to it.
pub fn roc_realloc(
    memory: &mut ServerAlloc,
    arena_index: u32,
    new_size: usize,
    old_size: usize,
    alignment: u32,
) -> (result: (Allocation, usize))
    requires
        old(memory).wf(),
        Layout::is_valid(old_size as int, alignment as int),
        Layout::is_valid(new_size as int, alignment as int),
        Arena::of_index(arena_index) matches Arena::Bucket(bucket) ==> bucket < old(
            memory,
        ).buckets().len(),
    ensures
        final(memory).wf(),
        result.1 == if new_size < old_size {
            new_size
        } else {
            old_size
        },
        ({
            let layout = Layout { size: new_size, align: alignment as usize };
            match Arena::of_index(arena_index) {
                    Arena::BeforeMain => {
                        &&& result.0 == taken(
                            old(memory).arena(),
                            layout,
                            Allocation::OutOfMemory,
                        )
                        &&& arena_used(*old(memory), *final(memory), layout)
                    },
                    Arena::Executor | Arena::Reactor => {
                        &&& result.0 == taken(old(memory).arena(), layout, Allocation::System)
                        &&& arena_used(*old(memory), *final(memory), layout)
                    },
                    Arena::Uninitialized => {
                        &&& result.0 == Allocation::OutOfMemory
                        &&& *final(memory) == *old(memory)
                    },
                    Arena::Bucket(bucket) => {
                        &&& result.0 == taken(
                            old(memory).buckets()[bucket as int],
                            layout,
                            Allocation::OutOfMemory,
                        )
                        &&& bucket_used(*old(memory), *final(memory), bucket as int, layout)
                    },
            }
        }),
{
    let copied: usize = if new_size < old_size {
        new_size
    } else {
        old_size
    };
    match Layout::from_size_align(new_size, alignment as usize) {
        Some(layout) => {
            let block = match allocate(memory, arena_index, layout) {
                // the application expects a valid address
                Allocation::Null => Allocation::OutOfMemory,
                block => block,
            };
            (block, copied)
        },
        None => {
            assert(false);
            (Allocation::Null, copied)
        },
    }
}

/// A request that uses up its memory harms no other: whatever it asks for, the regions of the
/// other buckets and the initial arena stay as they are.
pub proof fn law_only_the_own_bucket_changes(
    before: ServerAlloc,
    after: ServerAlloc,
    bucket: int,
    layout: Layout,
    other: int,
)
    requires
        0 <= bucket < before.buckets().len(),
        0 <= other < before.buckets().len(),
        other != bucket,
        bucket_used(before, after, bucket, layout),
    ensures
        after.buckets()[other] == before.buckets()[other],
        after.arena() == before.arena(),
{
}

/// A thread that serves a request gets memory from the bucket of that request, or none: its blocks
/// lie inside the bucket, are aligned if the bucket starts on a page, and the system's allocator is
/// never asked.
pub proof fn law_requests_stay_in_their_bucket(region: Bucket, layout: Layout)
    requires
        region.wf(),
        layout.wf(),
    ensures
        region_after(region, layout).wf(),
        match taken(region, layout, Allocation::OutOfMemory) {
            Allocation::Address(address) => {
                &&& region.start <= address
                &&& address == region.start + region_after(region, layout).remaining
                &&& address + layout.size <= region.start + region.remaining <= region.start
                    + region.size
                &&& region.is_aligned() ==> address as int % layout.align as int == 0
            },
            Allocation::OutOfMemory => region_after(region, layout) == region,
            Allocation::Null => false,
            Allocation::System => false,
        },
{
    allocator::law_block_fits(layout, region.remaining as int);
    if let Some(left) = allocator::remaining_after(layout, region.remaining as int) {
        if region.is_aligned() {
            allocator::law_block_is_aligned(layout, region.start as int, left);
        }
    }
}

/// A block is granted exactly if its alignment is supported and it fits, as close to what was
/// handed out before as its alignment lets it. A region that cannot grant a block stays as it is.
pub proof fn law_memory_is_granted_where_it_fits(
    region: Bucket,
    layout: Layout,
    otherwise: Allocation,
)
    requires
        region.wf(),
        layout.wf(),
    ensures
        region_after(region, layout).start == region.start,
        region_after(region, layout).size == region.size,
        layout.align <= 4096 && layout.size <= region.remaining ==> {
            let end = region.start + region.remaining;
            &&& taken(region, layout, otherwise) matches Allocation::Address(address)
            &&& end - layout.size - layout.align < address <= end - layout.size
            &&& (address - region.start) % layout.align as int == 0
            &&& region_after(region, layout).remaining == address - region.start
        },
        layout.align > 4096 || layout.size > region.remaining ==> {
            &&& taken(region, layout, otherwise) == otherwise
            &&& region_after(region, layout).remaining == region.remaining
        },
{
    allocator::law_block_fits(layout, region.remaining as int);
    allocator::law_blocks_waste_nothing(layout, region.remaining as int);
}

/// Taking a block changes what is left of one region, and nothing else.
pub proof fn law_one_region_pays_for_a_block(
    before: ServerAlloc,
    after: ServerAlloc,
    bucket: int,
    layout: Layout,
)
    requires
        before.wf(),
        layout.wf(),
        0 <= bucket < before.buckets().len(),
    ensures
        arena_used(before, after, layout) ==> {
            &&& after.buckets() == before.buckets()
            &&& after.arena().start == before.arena().start
            &&& after.arena().size == before.arena().size
            &&& after.arena().remaining <= before.arena().remaining
            &&& layout.align <= 4096 && layout.size <= before.arena().remaining
                ==> after.arena().remaining + layout.size <= before.arena().remaining
        },
        bucket_used(before, after, bucket, layout) ==> {
            let (old_bucket, new_bucket) = (before.buckets()[bucket], after.buckets()[bucket]);
            &&& after.arena() == before.arena()
            &&& after.buckets().len() == before.buckets().len()
            &&& new_bucket.start == old_bucket.start
            &&& new_bucket.size == old_bucket.size
            &&& new_bucket.remaining <= old_bucket.remaining
            &&& layout.align <= 4096 && layout.size <= old_bucket.remaining
                ==> new_bucket.remaining + layout.size <= old_bucket.remaining
        },
{
    assert(before.buckets()[bucket].wf());
    law_memory_is_granted_where_it_fits(before.arena(), layout, Allocation::Null);
    law_memory_is_granted_where_it_fits(before.buckets()[bucket], layout, Allocation::Null);
}

/// Every thread has one arena: the four largest numbers stand for threads that serve no request,
/// and every other number for the bucket with that number.
pub proof fn law_arenas_are_told_apart(index: u32)
    ensures
        Arena::of_index(index) is BeforeMain <==> index == u32::MAX,
        Arena::of_index(index) is Executor <==> index == u32::MAX - 1,
        Arena::of_index(index) is Reactor <==> index == u32::MAX - 2,
        Arena::of_index(index) is Uninitialized <==> index == u32::MAX - 3,
        index < u32::MAX - 3 ==> Arena::of_index(index) == Arena::Bucket(index),
{
}

} // verus!
