//! The memory of the server: one arena for the time before requests are handled, and one region
//! of fixed size per bucket.
//!
//! Memory is handed out from the top of a region downwards, and is only ever given back by
//! wiping the whole region.
use crate::bits;
use vstd::arithmetic::power2;
use vstd::prelude::*;

verus! {

pub const INITIAL_ARENA_SIZE: usize = 4096 * 128;

pub const MAX_SUPPORTED_ALIGN: usize = 4096;

/// The size and alignment of a block of memory. The alignment is a power of two.
#[derive(Debug, Clone, Copy, PartialEq, Eq, Structural)]
pub struct Layout {
    pub size: usize,
    pub align: usize,
}

impl Layout {
    pub open spec fn wf(self) -> bool {
        power2::is_pow2(self.align as int)
    }

    /// Whether a block can have this size and alignment: the alignment is a power of two, and the
    /// size, rounded up to a multiple of the alignment, stays below the largest block size.
    pub open spec fn is_valid(size: int, align: int) -> bool {
        power2::is_pow2(align) && size <= isize::MAX + 1 - align
    }

    pub fn from_size_align(size: usize, align: usize) -> (layout: Option<Layout>)
        ensures
            layout is Some <==> Layout::is_valid(size as int, align as int),
            layout matches Some(layout) ==> layout.wf() && layout == (Layout { size, align }),
    {
        let limit: usize = isize::MAX as usize + 1;
        if is_power_of_two(align) && align <= limit && size <= limit - align {
            Some(Layout { size, align })
        } else {
            None
        }
    }

    pub fn size(&self) -> (size: usize)
        ensures
            size == self.size,
    {
        self.size
    }

    pub fn align(&self) -> (align: usize)
        ensures
            align == self.align,
    {
        self.align
    }
}

/// Whether a number is a power of two.
fn is_power_of_two(n: usize) -> (result: bool)
    ensures
        result == power2::is_pow2(n as int),
{
    proof {
        reveal(power2::is_pow2);
    }
    if n == 0 {
        return false;
    }
    let mut rest: usize = n;
    while rest % 2 == 0
        invariant
            rest > 0,
            power2::is_pow2(rest as int) == power2::is_pow2(n as int),
        decreases rest,
    {
        proof {
            reveal(power2::is_pow2);
        }
        rest = rest / 2;
    }
    rest == 1
}

/// The largest multiple of `align` that is not above `n`.
pub open spec fn round_down(n: int, align: int) -> int {
    n - n % align
}

/// How many bytes of a region are left after a block was taken from its top: `None` if the
/// alignment is not supported, or if too little is left.
pub open spec fn remaining_after(layout: Layout, remaining: int) -> Option<int> {
    if layout.align > MAX_SUPPORTED_ALIGN || layout.size > remaining {
        None
    } else {
        Some(round_down(remaining - layout.size, layout.align as int))
    }
}

/// Takes a block from the top of a region of which `remaining` bytes are left. The result is what
/// is left then, which is also the offset of the block.
pub fn take_from_top(layout: Layout, remaining: usize) -> (left: Option<usize>)
    requires
        layout.wf(),
    ensures
        left is Some <==> remaining_after(layout, remaining as int) is Some,
        left matches Some(left) ==> remaining_after(layout, remaining as int) == Some(left as int),
{
    if layout.align > MAX_SUPPORTED_ALIGN {
        return None;
    }
    if layout.size > remaining {
        return None;
    }
    let left: usize = remaining - layout.size;
    proof {
        bits::lemma_exponent(layout.align as int);
        bits::lemma_mask_is_remainder(left, layout.align);
    }
    Some(left & !(layout.align - 1))
}

/// Takes a block from the region at `origin`, and gives its address.
fn try_alloc_help(layout: Layout, origin: usize, remaining: &mut usize) -> (address: Option<usize>)
    requires
        layout.wf(),
        origin + *old(remaining) <= usize::MAX,
    ensures
        match remaining_after(layout, *old(remaining) as int) {
            None => address is None && *final(remaining) == *old(remaining),
            Some(left) => {
                &&& address == Some((origin + left) as usize)
                &&& *final(remaining) == left
                &&& 0 <= left <= *old(remaining)
            },
        },
{
    match take_from_top(layout, *remaining) {
        None => None,
        Some(left) => {
            proof {
                law_block_fits(layout, *remaining as int);
            }
            *remaining = left;
            Some(origin + left)
        },
    }
}

/// The region of one bucket.
#[derive(Debug, Clone, Copy, PartialEq, Eq, Structural)]
pub struct Bucket {
    pub start: usize,
    pub size: usize,
    pub remaining: usize,
}

impl Bucket {
    pub open spec fn wf(self) -> bool {
        &&& 0 < self.start
        &&& self.start + self.size <= usize::MAX
        &&& self.remaining <= self.size
    }

    /// The region starts on a page, so that it can hold blocks of every supported alignment.
    pub open spec fn is_aligned(self) -> bool {
        self.start as int % MAX_SUPPORTED_ALIGN as int == 0
    }

    /// The bucket after its memory was wiped.
    pub open spec fn cleared(self) -> Bucket {
        Bucket { remaining: self.size, ..self }
    }

    /// The address of a block is a multiple of its alignment.
    proof fn lemma_address(self, layout: Layout)
        requires
            self.wf(),
            self.is_aligned(),
            layout.wf(),
        ensures
            remaining_after(layout, self.remaining as int) matches Some(left) ==> 0 <= left
                <= self.remaining && (self.start + left) % layout.align as int == 0,
    {
        law_block_fits(layout, self.remaining as int);
        if let Some(left) = remaining_after(layout, self.remaining as int) {
            law_block_is_aligned(layout, self.start as int, left);
        }
    }
}

/// The allocator of the server.
#[derive(Debug)]
pub struct ServerAlloc {
    initial_arena: usize,
    initial_arena_remaining: usize,
    buckets: Vec<Bucket>,
}

impl ServerAlloc {
    /// The arena for the time before requests are handled, as a region.
    pub closed spec fn arena(&self) -> Bucket {
        Bucket {
            start: self.initial_arena,
            size: INITIAL_ARENA_SIZE,
            remaining: self.initial_arena_remaining,
        }
    }

    /// The regions of the buckets.
    pub closed spec fn buckets(&self) -> Seq<Bucket> {
        self.buckets@
    }

    /// All regions are sound, and the arena starts on a page.
    pub open spec fn wf(&self) -> bool {
        &&& self.arena().wf()
        &&& self.arena().is_aligned()
        &&& forall|i: int| 0 <= i < self.buckets().len() ==> (#[trigger] self.buckets()[i]).wf()
    }

    /// An allocator for the arena that starts at the given address, which is that of a page. It
    /// has no buckets yet.
    pub fn new(initial_arena: usize) -> (alloc: Self)
        requires
            0 < initial_arena,
            initial_arena as int % MAX_SUPPORTED_ALIGN as int == 0,
            initial_arena + INITIAL_ARENA_SIZE <= usize::MAX,
        ensures
            alloc.wf(),
            alloc.arena() == (Bucket {
                start: initial_arena,
                size: INITIAL_ARENA_SIZE,
                remaining: INITIAL_ARENA_SIZE,
            }),
            alloc.buckets() == Seq::<Bucket>::empty(),
    {
        Self { initial_arena, initial_arena_remaining: INITIAL_ARENA_SIZE, buckets: Vec::new() }
    }

    pub fn try_allocate_in_initial_bucket(&mut self, layout: Layout) -> (address: Option<usize>)
        requires
            old(self).wf(),
            layout.wf(),
        ensures
            final(self).wf(),
            final(self).buckets() == old(self).buckets(),
            match remaining_after(layout, old(self).arena().remaining as int) {
                None => address is None && final(self).arena() == old(self).arena(),
                Some(left) => {
                    &&& address == Some((old(self).arena().start + left) as usize)
                    &&& final(self).arena() == (Bucket {
                        remaining: left as usize,
                        ..old(self).arena()
                    })
                },
            },
            address matches Some(a) ==> a as int % layout.align as int == 0,
    {
        proof {
            old(self).arena().lemma_address(layout);
        }
        let address = try_alloc_help(
            layout,
            self.initial_arena,
            &mut self.initial_arena_remaining,
        );
        assert(self.buckets() == old(self).buckets());
        address
    }

    pub fn try_allocate_in_bucket(&mut self, layout: Layout, bucket_index: usize) -> (address:
        Option<usize>)
        requires
            old(self).wf(),
            layout.wf(),
            bucket_index < old(self).buckets().len(),
        ensures
            final(self).wf(),
            final(self).arena() == old(self).arena(),
            ({
                let bucket = old(self).buckets()[bucket_index as int];
                match remaining_after(layout, bucket.remaining as int) {
                    None => address is None && final(self).buckets() == old(self).buckets(),
                    Some(left) => {
                        &&& address == Some((bucket.start + left) as usize)
                        &&& final(self).buckets() == old(self).buckets().update(
                            bucket_index as int,
                            Bucket { remaining: left as usize, ..bucket },
                        )
                    },
                }
            }),
            old(self).buckets()[bucket_index as int].is_aligned() ==> (address matches Some(a)
                ==> a as int % layout.align as int == 0),
    {
        let mut bucket = self.buckets[bucket_index];
        assert(self.buckets()[bucket_index as int].wf());
        proof {
            if bucket.is_aligned() {
                bucket.lemma_address(layout);
            }
        }
        let address = try_alloc_help(layout, bucket.start, &mut bucket.remaining);
        self.buckets[bucket_index] = bucket;
        assert(address is None ==> self.buckets() =~= old(self).buckets());
        address
    }

    /// Wipes the memory of a bucket.
    pub fn clear_bucket(&mut self, bucket_index: usize)
        requires
            old(self).wf(),
            bucket_index < old(self).buckets().len(),
        ensures
            final(self).wf(),
            final(self).arena() == old(self).arena(),
            final(self).buckets() == old(self).buckets().update(
                bucket_index as int,
                old(self).buckets()[bucket_index as int].cleared(),
            ),
    {
        let mut bucket = self.buckets[bucket_index];
        assert(self.buckets()[bucket_index as int].wf());
        bucket.remaining = bucket.size;
        self.buckets[bucket_index] = bucket;
    }

    /// Cuts the memory at `start` into buckets of one size. All of them are empty.
    pub fn initialize_buckets(
        &mut self,
        start: usize,
        number_of_buckets: usize,
        bucket_size: usize,
    )
        requires
            old(self).wf(),
            0 < start,
            start + number_of_buckets * bucket_size <= usize::MAX,
        ensures
            final(self).wf(),
            final(self).arena() == old(self).arena(),
            final(self).buckets() == fresh_buckets(
                start as int,
                number_of_buckets as nat,
                bucket_size as int,
            ),
    {
        let mut buckets: Vec<Bucket> = Vec::new();
        let mut i: usize = 0;
        while i < number_of_buckets
            invariant
                i <= number_of_buckets,
                buckets.len() == i,
                0 < start,
                start + number_of_buckets * bucket_size <= usize::MAX,
                forall|j: int|
                    0 <= j < i ==> #[trigger] buckets@[j] == fresh_bucket(
                        start as int,
                        j,
                        bucket_size as int,
                    ) && buckets@[j].wf(),
            decreases number_of_buckets - i,
        {
            assert(i * bucket_size + bucket_size <= number_of_buckets * bucket_size && 0 <= i
                * bucket_size) by (nonlinear_arith)
                requires
                    0 <= i < number_of_buckets,
                    bucket_size >= 0,
            ;
            buckets.push(
                Bucket {
                    start: start + i * bucket_size,
                    size: bucket_size,
                    remaining: bucket_size,
                },
            );
            i = i + 1;
        }
        self.buckets = buckets;
        assert(self.buckets() =~= fresh_buckets(
            start as int,
            number_of_buckets as nat,
            bucket_size as int,
        ));
    }
}

/// Bucket number `i` of the memory at `start`.
pub open spec fn fresh_bucket(start: int, i: int, bucket_size: int) -> Bucket {
    Bucket {
        start: (start + i * bucket_size) as usize,
        size: bucket_size as usize,
        remaining: bucket_size as usize,
    }
}

/// The memory at `start`, cut into buckets of one size.
pub open spec fn fresh_buckets(start: int, number_of_buckets: nat, bucket_size: int) -> Seq<
    Bucket,
> {
    Seq::new(number_of_buckets, |i: int| fresh_bucket(start, i, bucket_size))
}

/// A block lies inside what was left of its region, and its offset is a multiple of its
/// alignment.
pub proof fn law_block_fits(layout: Layout, remaining: int)
    requires
        layout.wf(),
        remaining >= 0,
    ensures
        remaining_after(layout, remaining) matches Some(left) ==> {
            &&& 0 <= left
            &&& left + layout.size <= remaining
            &&& left % (layout.align as int) == 0
        },
{
    let align = layout.align as int;
    bits::lemma_exponent(align);
    if remaining_after(layout, remaining) is Some {
        let n = remaining - layout.size;
        vstd::arithmetic::div_mod::lemma_fundamental_div_mod(n, align);
        let multiple = n / align;
        assert(n - n % align == align * multiple);
        assert(multiple >= 0) by (nonlinear_arith)
            requires
                multiple == n / align,
                n >= 0,
                align > 0,
        ;
        assert(align * multiple >= 0) by (nonlinear_arith)
            requires
                multiple >= 0,
                align > 0,
        ;
        assert((align * multiple) % align == 0) by {
            vstd::arithmetic::div_mod::lemma_mod_multiples_basic(multiple, align);
            assert(align * multiple == multiple * align) by (nonlinear_arith);
        }
    }
}

/// A block in a region that starts on a page is aligned as asked for.
pub proof fn law_block_is_aligned(layout: Layout, origin: int, left: int)
    requires
        layout.wf(),
        layout.align <= MAX_SUPPORTED_ALIGN,
        origin % (MAX_SUPPORTED_ALIGN as int) == 0,
        left % (layout.align as int) == 0,
    ensures
        (origin + left) % (layout.align as int) == 0,
{
    let align = layout.align as int;
    let e = bits::lemma_exponent(align);
    power2::lemma2_to64();
    assert(e <= 12) by {
        if e > 12 {
            power2::lemma_pow2_strictly_increases(12, e);
        }
    }
    power2::lemma_pow2_adds(e, (12 - e) as nat);
    let f = power2::pow2((12 - e) as nat) as int;
    let pages = origin / 4096;
    assert(align * f == 4096);
    vstd::arithmetic::div_mod::lemma_fundamental_div_mod(origin, 4096);
    assert(origin == (pages * f) * align) by (nonlinear_arith)
        requires
            origin == 4096 * pages,
            align * f == 4096,
    ;
    vstd::arithmetic::div_mod::lemma_mod_multiples_vanish(pages * f, left, align);
    assert(align * (pages * f) == (pages * f) * align) by (nonlinear_arith);
}

/// A block that was handed out: where it begins in its region, and what was asked for.
pub struct Block {
    pub offset: int,
    pub layout: Layout,
}

impl Block {
    pub open spec fn end(self) -> int {
        self.offset + self.layout.size
    }
}

/// The blocks that a series of requests gets from one region, newest last. A request that is
/// refused changes nothing and is left out.
pub open spec fn blocks(remaining: int, requests: Seq<Layout>) -> Seq<Block>
    decreases requests.len(),
{
    if requests.len() == 0 {
        Seq::empty()
    } else {
        let earlier = blocks(remaining, requests.drop_last());
        let layout = requests.last();
        match remaining_after(layout, left_after(remaining, requests.drop_last())) {
            None => earlier,
            Some(offset) => earlier.push(Block { offset, layout }),
        }
    }
}

/// What a series of requests leaves of a region.
pub open spec fn left_after(remaining: int, requests: Seq<Layout>) -> int
    decreases requests.len(),
{
    if requests.len() == 0 {
        remaining
    } else {
        let before = left_after(remaining, requests.drop_last());
        match remaining_after(requests.last(), before) {
            None => before,
            Some(left) => left,
        }
    }
}

/// However a region is used, its blocks lie inside the region, and no two of them overlap: a
/// later block ends before an earlier one begins.
pub proof fn law_blocks_never_overlap(size: int, requests: Seq<Layout>)
    requires
        size >= 0,
        forall|i: int| 0 <= i < requests.len() ==> (#[trigger] requests[i]).wf(),
    ensures
        0 <= left_after(size, requests) <= size,
        forall|i: int|
            0 <= i < blocks(size, requests).len() ==> {
                let block = #[trigger] blocks(size, requests)[i];
                left_after(size, requests) <= block.offset <= block.end() <= size
            },
        forall|i: int, j: int|
            0 <= i < j < blocks(size, requests).len() ==> (#[trigger] blocks(
                size,
                requests,
            )[j]).end() <= (#[trigger] blocks(size, requests)[i]).offset,
    decreases requests.len(),
{
    if requests.len() > 0 {
        let shorter = requests.drop_last();
        assert forall|i: int| 0 <= i < shorter.len() implies (#[trigger] shorter[i]).wf() by {
            assert(shorter[i] == requests[i]);
        }
        law_blocks_never_overlap(size, shorter);
        assert(requests[requests.len() - 1].wf());
        law_block_fits(requests.last(), left_after(size, shorter));
        let earlier = blocks(size, shorter);
        let all = blocks(size, requests);
        assert forall|i: int| 0 <= i < earlier.len() implies all[i] == earlier[i] by {}
        assert forall|i: int| 0 <= i < all.len() implies {
            let block = #[trigger] all[i];
            left_after(size, requests) <= block.offset <= block.end() <= size
        } by {
            if i < earlier.len() {
                assert(all[i] == earlier[i]);
            }
        }
        assert forall|i: int, j: int| 0 <= i < j < all.len() implies (#[trigger] all[j]).end() <= (
        #[trigger] all[i]).offset by {
            assert(all[i] == earlier[i]);
            if j < earlier.len() {
                assert(all[j] == earlier[j]);
            }
        }
    }
}

/// However a region that starts on a page is used, the address of every block is a multiple of the
/// alignment that was asked for.
pub proof fn law_blocks_are_aligned(origin: int, size: int, requests: Seq<Layout>)
    requires
        size >= 0,
        origin % (MAX_SUPPORTED_ALIGN as int) == 0,
        forall|i: int| 0 <= i < requests.len() ==> (#[trigger] requests[i]).wf(),
    ensures
        forall|i: int|
            0 <= i < blocks(size, requests).len() ==> {
                let block = #[trigger] blocks(size, requests)[i];
                (origin + block.offset) % (block.layout.align as int) == 0
            },
    decreases requests.len(),
{
    if requests.len() > 0 {
        let shorter = requests.drop_last();
        assert forall|i: int| 0 <= i < shorter.len() implies (#[trigger] shorter[i]).wf() by {
            assert(shorter[i] == requests[i]);
        }
        law_blocks_are_aligned(origin, size, shorter);
        law_blocks_never_overlap(size, shorter);
        assert(requests[requests.len() - 1].wf());
        law_block_fits(requests.last(), left_after(size, shorter));
        let earlier = blocks(size, shorter);
        let all = blocks(size, requests);
        assert forall|i: int| 0 <= i < all.len() implies {
            let block = #[trigger] all[i];
            (origin + block.offset) % (block.layout.align as int) == 0
        } by {
            if i < earlier.len() {
                assert(all[i] == earlier[i]);
            } else {
                law_block_is_aligned(requests.last(), origin, all[i].offset);
            }
        }
    }
}

/// A request can never use more than its bucket: the sizes of all blocks that it got since the
/// bucket was wiped add up to at most the size of the bucket.
pub proof fn law_memory_use_is_bounded(size: int, requests: Seq<Layout>)
    requires
        size >= 0,
        forall|i: int| 0 <= i < requests.len() ==> (#[trigger] requests[i]).wf(),
    ensures
        total_size(blocks(size, requests)) <= size - left_after(size, requests) <= size,
    decreases requests.len(),
{
    if requests.len() > 0 {
        let shorter = requests.drop_last();
        assert forall|i: int| 0 <= i < shorter.len() implies (#[trigger] shorter[i]).wf() by {
            assert(shorter[i] == requests[i]);
        }
        law_memory_use_is_bounded(size, shorter);
        law_blocks_never_overlap(size, shorter);
        assert(requests[requests.len() - 1].wf());
        law_block_fits(requests.last(), left_after(size, shorter));
        match remaining_after(requests.last(), left_after(size, shorter)) {
            None => {},
            Some(offset) => {
                let earlier = blocks(size, shorter);
                let block = Block { offset, layout: requests.last() };
                assert(earlier.push(block).drop_last() =~= earlier);
            },
        }
    }
}

/// How many bytes a list of blocks takes.
pub open spec fn total_size(blocks: Seq<Block>) -> int
    decreases blocks.len(),
{
    if blocks.len() == 0 {
        0
    } else {
        total_size(blocks.drop_last()) + blocks.last().layout.size
    }
}

/// Whatever is asked of the initial arena, its blocks lie inside the arena, no two of them
/// overlap, each is aligned as asked for, and together they take no more than the arena has.
pub proof fn law_initial_arena_is_shared_out(memory: ServerAlloc, requests: Seq<Layout>)
    requires
        memory.wf(),
        forall|i: int| 0 <= i < requests.len() ==> (#[trigger] requests[i]).wf(),
    ensures
        ({
            let start = memory.arena().start;
            let handed_out = blocks(INITIAL_ARENA_SIZE as int, requests);
            &&& forall|i: int|
                0 <= i < handed_out.len() ==> {
                    let block = #[trigger] handed_out[i];
                    &&& 0 <= block.offset <= block.end() <= INITIAL_ARENA_SIZE
                    &&& (start + block.offset) % (block.layout.align as int) == 0
                }
            &&& forall|i: int, j: int|
                0 <= i < j < handed_out.len() ==> (#[trigger] handed_out[j]).end() <= (
                #[trigger] handed_out[i]).offset
            &&& total_size(handed_out) <= INITIAL_ARENA_SIZE
        }),
{
    law_blocks_never_overlap(INITIAL_ARENA_SIZE as int, requests);
    law_blocks_are_aligned(memory.arena().start as int, INITIAL_ARENA_SIZE as int, requests);
    law_memory_use_is_bounded(INITIAL_ARENA_SIZE as int, requests);
}

/// The regions of two buckets never overlap.
pub proof fn law_buckets_never_overlap(
    start: int,
    number_of_buckets: nat,
    bucket_size: int,
    i: int,
    j: int,
)
    requires
        0 < start,
        0 <= bucket_size,
        start + number_of_buckets * bucket_size <= usize::MAX,
        0 <= i < j < number_of_buckets,
    ensures
        ({
            let buckets = fresh_buckets(start, number_of_buckets, bucket_size);
            buckets[i].start + buckets[i].size <= buckets[j].start
        }),
{
    assert(i * bucket_size + bucket_size <= j * bucket_size && j * bucket_size + bucket_size
        <= number_of_buckets * bucket_size && 0 <= i * bucket_size) by (nonlinear_arith)
        requires
            0 <= i < j < number_of_buckets,
            0 <= bucket_size,
    ;
}

/// Where buckets are cut from memory that starts on a page, and are whole pages long, every bucket
/// starts on a page.
pub proof fn law_buckets_are_aligned(start: int, number_of_buckets: nat, bucket_size: int, i: int)
    requires
        0 < start,
        0 <= bucket_size,
        start + number_of_buckets * bucket_size <= usize::MAX,
        start % (MAX_SUPPORTED_ALIGN as int) == 0,
        bucket_size % (MAX_SUPPORTED_ALIGN as int) == 0,
        0 <= i < number_of_buckets,
    ensures
        fresh_buckets(start, number_of_buckets, bucket_size)[i].is_aligned(),
{
    let pages = bucket_size / 4096;
    assert(bucket_size == 4096 * pages);
    assert(i * bucket_size == 4096 * (i * pages) && 0 <= i * bucket_size <= number_of_buckets
        * bucket_size) by (nonlinear_arith)
        requires
            bucket_size == 4096 * pages,
            0 <= i < number_of_buckets,
            0 <= bucket_size,
    ;
}

/// A wiped bucket has room again for every block that fits into a bucket at all.
pub proof fn law_cleared_bucket_is_reusable(bucket: Bucket, layout: Layout)
    requires
        bucket.wf(),
        layout.wf(),
        layout.align <= MAX_SUPPORTED_ALIGN,
        layout.size <= bucket.size,
    ensures
        bucket.cleared().wf(),
        remaining_after(layout, bucket.cleared().remaining as int) is Some,
{
}

/// A block is granted exactly if its alignment is supported and its size fits into what is left.
/// Nothing is wasted then: the block lies as high as its size and its alignment let it, so that it
/// costs less than the two together.
pub proof fn law_blocks_waste_nothing(layout: Layout, remaining: int)
    requires
        layout.wf(),
        remaining >= 0,
    ensures
        remaining_after(layout, remaining) is Some <==> layout.align <= 4096 && layout.size
            <= remaining,
        remaining_after(layout, remaining) matches Some(left) ==> {
            &&& left > remaining - layout.size - layout.align
            &&& forall|offset: int|
                offset % (layout.align as int) == 0 && #[trigger] (offset + layout.size)
                    <= remaining ==> offset <= left
        },
{
    let align = layout.align as int;
    bits::lemma_exponent(align);
    if let Some(left) = remaining_after(layout, remaining) {
        law_block_fits(layout, remaining);
        let n = remaining - layout.size;
        assert(0 <= n % align < align) by {
            vstd::arithmetic::div_mod::lemma_mod_bound(n, align);
        }
        assert forall|offset: int|
            offset % align == 0 && #[trigger] (offset + layout.size)
                <= remaining implies offset <= left by {
            if offset > left {
                vstd::arithmetic::div_mod::lemma_fundamental_div_mod(offset, align);
                vstd::arithmetic::div_mod::lemma_fundamental_div_mod(left, align);
                let above = offset / align;
                let below = left / align;
                assert(above >= below + 1) by (nonlinear_arith)
                    requires
                        align * above > align * below,
                        align > 0,
                ;
                assert(align * above >= align * below + align) by (nonlinear_arith)
                    requires
                        above >= below + 1,
                        align > 0,
                ;
            }
        }
    }
}

/// More room never leaves less: what is granted of less room is granted of more room.
pub proof fn law_more_room_leaves_more(layout: Layout, less: int, more: int)
    requires
        layout.wf(),
        0 <= less <= more,
    ensures
        remaining_after(layout, less) is Some ==> remaining_after(layout, more) is Some,
        remaining_after(layout, less) matches Some(a) ==> (remaining_after(layout, more) matches Some(
            b,
        ) ==> a <= b),
{
    law_blocks_waste_nothing(layout, less);
    law_blocks_waste_nothing(layout, more);
    if let Some(a) = remaining_after(layout, less) {
        law_block_fits(layout, less);
        assert(a + layout.size <= more);
    }
}

/// What a list of requests can cost at most: sizes and alignments together.
pub open spec fn total_cost(requests: Seq<Layout>) -> int
    decreases requests.len(),
{
    if requests.len() == 0 {
        0
    } else {
        total_cost(requests.drop_last()) + requests.last().size + requests.last().align
    }
}

/// A series of requests is served whole, as long as its sizes and alignments add up to no more
/// than the region: every request gets its block, in order, and what is over is still there.
pub proof fn law_requests_within_the_region_are_served(size: int, requests: Seq<Layout>)
    requires
        total_cost(requests) <= size,
        forall|i: int|
            0 <= i < requests.len() ==> (#[trigger] requests[i]).wf() && requests[i].align <= 4096,
    ensures
        left_after(size, requests) >= size - total_cost(requests),
        blocks(size, requests).len() == requests.len(),
        forall|i: int|
            0 <= i < requests.len() ==> (#[trigger] blocks(size, requests)[i]).layout
                == requests[i],
        total_cost(requests) >= 0,
    decreases requests.len(),
{
    if requests.len() > 0 {
        let shorter = requests.drop_last();
        let last = requests[requests.len() - 1];
        assert forall|i: int| 0 <= i < shorter.len() implies (#[trigger] shorter[i]).wf()
            && shorter[i].align <= 4096 by {
            assert(shorter[i] == requests[i]);
        }
        assert(last.wf());
        law_requests_within_the_region_are_served(size, shorter);
        law_blocks_waste_nothing(last, left_after(size, shorter));
    }
}

/// Wiping a bucket gives back all of its memory, and moves nothing.
pub proof fn law_wiping_gives_everything_back(bucket: Bucket)
    ensures
        bucket.cleared().remaining == bucket.size,
        bucket.cleared().start == bucket.start,
        bucket.cleared().size == bucket.size,
{
}

/// The buckets lie one behind the other from the start of their memory on, without a gap; each has
/// the size that was asked for, and all of it is free.
pub proof fn law_buckets_leave_no_gap(
    start: int,
    number_of_buckets: nat,
    bucket_size: int,
    i: int,
)
    requires
        0 < start,
        0 <= bucket_size,
        start + number_of_buckets * bucket_size <= usize::MAX,
        0 <= i < number_of_buckets,
    ensures
        ({
            let buckets = fresh_buckets(start, number_of_buckets, bucket_size);
            &&& buckets.len() == number_of_buckets
            &&& buckets[i].size == bucket_size
            &&& buckets[i].remaining == bucket_size
            &&& i == 0 ==> buckets[i].start == start
            &&& i > 0 ==> buckets[i].start == buckets[i - 1].start + bucket_size
        }),
{
    assert(0 <= i * bucket_size <= number_of_buckets * bucket_size && bucket_size
        <= number_of_buckets * bucket_size && i * bucket_size == (i - 1) * bucket_size
        + bucket_size) by (nonlinear_arith)
        requires
            0 <= i < number_of_buckets,
            0 <= bucket_size,
    ;
    if i > 0 {
        assert(0 <= (i - 1) * bucket_size) by (nonlinear_arith)
            requires
                0 < i,
                0 <= bucket_size,
        ;
    } else {
        assert(0 * bucket_size == 0) by (nonlinear_arith);
    }
}

/// A block can have a size and an alignment exactly if the alignment is a power of two, and the
/// size, rounded up to the next multiple of it, is one that a block can have at all.
pub proof fn law_layouts_leave_room_for_rounding(size: int, align: int, rounded: int)
    requires
        0 <= size,
        0 < align <= usize::MAX,
        rounded % align == 0,
        size <= rounded < size + align,
    ensures
        Layout::is_valid(size, align) <==> power2::is_pow2(align) && rounded <= isize::MAX,
{
    if power2::is_pow2(align) {
        lemma_rounding(size, align, rounded);
    }
}

proof fn lemma_rounding(size: int, align: int, rounded: int)
    requires
        power2::is_pow2(align),
        0 <= size,
        align <= usize::MAX,
        rounded % align == 0,
        size <= rounded < size + align,
    ensures
        size <= isize::MAX + 1 - align <==> rounded <= isize::MAX,
{
    let e = bits::lemma_exponent(align);
    bits::lemma_word_is_power_of_two();
    let rest = (usize::BITS - 1 - e) as nat;
    power2::lemma_pow2_adds(e, rest);
    power2::lemma_pow2_unfold(usize::BITS as nat);
    let limit = power2::pow2((usize::BITS - 1) as nat) as int;
    assert(limit == isize::MAX + 1);
    let times = power2::pow2(rest) as int;
    assert(limit == align * times);
    vstd::arithmetic::div_mod::lemma_fundamental_div_mod(rounded, align);
    let n = rounded / align;
    if rounded <= isize::MAX {
        assert(n + 1 <= times) by (nonlinear_arith)
            requires
                align * n < align * times,
                align > 0,
        ;
        assert(align * n + align <= align * times) by (nonlinear_arith)
            requires
                n + 1 <= times,
                align > 0,
        ;
    }
    if size <= limit - align {
        assert(rounded < limit);
    }
}

} // verus!
