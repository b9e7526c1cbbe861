//! The table of sockets that are being served. The place of a socket in the table is the number
//! of the bucket that serves it.
use vstd::prelude::*;

verus! {

/// The places, each zero if it is free and the handle of a socket otherwise.
#[derive(Debug)]
pub struct Indexer {
    handles: Vec<u64>,
}

/// The word that a file descriptor is stored as.
pub open spec fn handle_of(fd: int) -> u64 {
    (if fd >= 0 {
        fd
    } else {
        fd + 0x1_0000_0000_0000_0000
    }) as u64
}

/// `index` is the first free place.
pub open spec fn is_first_free(handles: Seq<u64>, index: int) -> bool {
    &&& 0 <= index < handles.len()
    &&& handles[index] == 0
    &&& forall|i: int| 0 <= i < index ==> #[trigger] handles[i] != 0
}

/// No place is free.
pub open spec fn is_full(handles: Seq<u64>) -> bool {
    forall|i: int| 0 <= i < handles.len() ==> #[trigger] handles[i] != 0
}

impl View for Indexer {
    type V = Seq<u64>;

    closed spec fn view(&self) -> Seq<u64> {
        self.handles@
    }
}

impl Indexer {
    /// A table without places.
    pub fn new() -> (indexer: Self)
        ensures
            indexer@ == Seq::<u64>::empty(),
    {
        Self { handles: Vec::new() }
    }

    /// Puts a socket into the first free place.
    pub fn insert(&mut self, fd: i32) -> (place: Option<usize>)
        ensures
            match place {
                Some(index) => {
                    &&& is_first_free(old(self)@, index as int)
                    &&& final(self)@ == old(self)@.update(index as int, handle_of(fd as int))
                },
                None => is_full(old(self)@) && final(self)@ == old(self)@,
            },
    {
        let handle: u64 = if fd >= 0 {
            fd as u64
        } else {
            u64::MAX - ((-(fd as i64)) as u64 - 1)
        };
        let mut i: usize = 0;
        while i < self.handles.len()
            invariant
                i <= self.handles.len(),
                handle == handle_of(fd as int),
                self@ == old(self)@,
                forall|j: int| 0 <= j < i ==> #[trigger] self.handles@[j] != 0,
            decreases self.handles.len() - i,
        {
            if self.handles[i] == 0 {
                self.handles[i] = handle;
                return Some(i);
            }
            // no matter, just try the next index
            i = i + 1;
        }
        None
    }

    /// Frees a place.
    pub fn remove(&mut self, index: usize)
        requires
            index < old(self)@.len(),
        ensures
            final(self)@ == old(self)@.update(index as int, 0),
    {
        self.handles[index] = 0;
    }

    /// Makes a table of free places.
    pub fn initialize(&mut self, size: usize)
        ensures
            final(self)@ == Seq::new(size as nat, |i: int| 0u64),
    {
        let mut handles: Vec<u64> = Vec::new();
        while handles.len() < size
            invariant
                handles.len() <= size,
                forall|i: int| 0 <= i < handles@.len() ==> #[trigger] handles@[i] == 0,
            decreases size - handles.len(),
        {
            handles.push(0);
        }
        self.handles = handles;
        assert(self@ =~= Seq::new(size as nat, |i: int| 0u64));
    }
}

/// A place that holds a socket other than number zero is not handed out again until it is freed.
pub proof fn law_places_are_exclusive(handles: Seq<u64>, index: int, fd: i32, other: int)
    requires
        is_first_free(handles, index),
        fd != 0,
        is_first_free(handles.update(index, handle_of(fd as int)), other),
    ensures
        other != index,
{
    assert(handle_of(fd as int) != 0);
}

/// A place that was freed is handed out again, unless an earlier one is free.
pub proof fn law_freed_places_are_reused(handles: Seq<u64>, index: int, other: int)
    requires
        0 <= index < handles.len(),
        is_first_free(handles.update(index, 0), other),
    ensures
        other <= index,
        !is_full(handles.update(index, 0)),
{
    let freed = handles.update(index, 0);
    assert(freed[index] == 0);
}

/// A socket goes to the lowest free place, and the table is full exactly if there is none.
pub proof fn law_lowest_free_place_is_used(handles: Seq<u64>, index: int)
    ensures
        is_first_free(handles, index) ==> 0 <= index < handles.len() && handles[index] == 0,
        forall|i: int|
            0 <= i < handles.len() && #[trigger] handles[i] == 0 ==> !is_full(handles) && (
            is_first_free(handles, index) ==> index <= i),
        !is_full(handles) ==> handles.contains(0),
        handles.len() == 0 ==> is_full(handles),
{
}

/// Different sockets are stored as different words: a number as itself, and a negative one as it is
/// extended to 64 bits.
pub proof fn law_sockets_are_told_apart(fd: i32, other: i32)
    ensures
        fd >= 0 ==> handle_of(fd as int) == fd,
        fd < 0 ==> handle_of(fd as int) == u64::MAX + 1 + fd,
        fd != other ==> handle_of(fd as int) != handle_of(other as int),
        handle_of(fd as int) == 0 <==> fd == 0,
{
}

} // verus!
