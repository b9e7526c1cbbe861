//! The reactor: who waits for which socket to become ready.
//!
//! Every queue slot can have one source of events. A source remembers, for each direction, whether
//! the socket was reported ready, and whom to wake when it is.
use crate::index::{IoResources, QueueIndex};
use vstd::prelude::*;

verus! {

#[derive(Debug, Clone, Copy, PartialEq, Eq, Structural)]
pub enum Direction {
    Read,
    Write,
}

/// One direction of a source.
#[derive(Debug)]
pub struct Side<W> {
    /// `None` when the application is not awaiting events, and `Some` when it is (e.g. doing a
    /// `tcp_stream.read(&mut buf).await;`)
    pub interest: Option<W>,
    pub triggered: bool,
}

#[derive(Debug)]
pub struct Source<W> {
    pub read: Side<W>,
    pub write: Side<W>,
}

/// What was reported for a socket.
#[derive(Debug, Clone, Copy, PartialEq, Eq, Structural)]
pub struct Event {
    /// The word that the socket was registered under.
    pub token: usize,
    pub is_readable: bool,
    pub is_writable: bool,
}

/// How waiting for events ended.
#[derive(Debug)]
pub enum PollOutcome {
    Events(Vec<Event>),
    Interrupted,
    Failed(std::io::Error),
}

/// What a task that wants to read or write does next.
#[derive(Debug, Clone, Copy, PartialEq, Eq, Structural)]
pub enum IoStep {
    /// Wait: the task will be woken.
    Pending,
    /// Try to read or write.
    Try,
}

impl<W> Side<W> {
    /// Nothing was reported, and nobody waits.
    pub open spec fn fresh() -> Self {
        Side { interest: None, triggered: false }
    }

    /// The socket was reported ready. Whoever waited is woken.
    pub open spec fn fired(self) -> Self {
        Side { interest: None, triggered: true }
    }

    /// Whom a report wakes.
    pub open spec fn woken(self) -> Seq<W> {
        match self.interest {
            Some(waker) => seq![waker],
            None => Seq::empty(),
        }
    }

    /// Somebody wants to be woken. A waker that is as good as the new one is kept.
    pub open spec fn awaited(self, waker: W, has_right_waker: bool) -> Self {
        if self.triggered || (self.interest is Some && has_right_waker) {
            self
        } else {
            Side { interest: Some(waker), ..self }
        }
    }

    fn new() -> (side: Self)
        ensures
            side == Side::<W>::fresh(),
    {
        Side { interest: None, triggered: false }
    }

    /// The socket was reported ready.
    pub fn fire(&mut self, wakers: &mut Vec<W>)
        ensures
            *final(self) == old(self).fired(),
            final(wakers)@ == old(wakers)@ + old(self).woken(),
    {
        match self.interest.take() {
            Some(waker) => {
                wakers.push(waker);
            },
            None => {},
        }
        self.triggered = true;
        assert(wakers@ =~= old(wakers)@ + old(self).woken());
    }

    /// Whether the socket is ready. If not, the waker is kept for the next report.
    pub fn poll_ready(&mut self, waker: W, has_right_waker: bool) -> (is_ready: bool)
        ensures
            is_ready == old(self).triggered,
            *final(self) == old(self).awaited(waker, has_right_waker),
    {
        if self.triggered {
            return true;
        }
        if self.interest.is_some() && has_right_waker {
            // has the right waker already
        } else {
            self.interest = Some(waker);
        }
        false
    }
}

impl<W> Source<W> {
    pub open spec fn fresh() -> Self {
        Source { read: Side::fresh(), write: Side::fresh() }
    }

    pub open spec fn side(self, direction: Direction) -> Side<W> {
        match direction {
            Direction::Read => self.read,
            Direction::Write => self.write,
        }
    }

    pub open spec fn with_side(self, direction: Direction, side: Side<W>) -> Self {
        match direction {
            Direction::Read => Source { read: side, ..self },
            Direction::Write => Source { write: side, ..self },
        }
    }

    /// The directions that a report is about have fired.
    pub open spec fn fired(self, readable: bool, writable: bool) -> Self {
        Source {
            read: if readable {
                self.read.fired()
            } else {
                self.read
            },
            write: if writable {
                self.write.fired()
            } else {
                self.write
            },
        }
    }

    /// Whom a report wakes: first who waits to read, then who waits to write.
    pub open spec fn woken(self, readable: bool, writable: bool) -> Seq<W> {
        (if readable {
            self.read.woken()
        } else {
            Seq::empty()
        }) + (if writable {
            self.write.woken()
        } else {
            Seq::empty()
        })
    }

    pub fn new() -> (source: Self)
        ensures
            source == Source::<W>::fresh(),
    {
        Source { read: Side::new(), write: Side::new() }
    }

    /// Takes note of a report.
    pub fn fire(&mut self, readable: bool, writable: bool, wakers: &mut Vec<W>)
        ensures
            *final(self) == old(self).fired(readable, writable),
            final(wakers)@ == old(wakers)@ + old(self).woken(readable, writable),
    {
        if readable {
            self.read.fire(wakers);
        }
        if writable {
            self.write.fire(wakers);
        }
        assert(wakers@ =~= old(wakers)@ + old(self).woken(readable, writable));
    }

    /// Whether one direction is ready. If not, the waker is kept for the next report.
    pub fn poll_ready(&mut self, direction: Direction, waker: W, has_right_waker: bool) -> (is_ready:
        bool)
        ensures
            is_ready == old(self).side(direction).triggered,
            *final(self) == old(self).with_side(
                direction,
                old(self).side(direction).awaited(waker, has_right_waker),
            ),
    {
        match direction {
            Direction::Read => self.read.poll_ready(waker, has_right_waker),
            Direction::Write => self.write.poll_ready(waker, has_right_waker),
        }
    }

    /// An attempt to read or write did not get through: the direction is not ready any more.
    pub fn clear_trigger(&mut self, direction: Direction)
        ensures
            *final(self) == old(self).with_side(
                direction,
                (Side { triggered: false, ..old(self).side(direction) }),
            ),
    {
        match direction {
            Direction::Read => {
                self.read.triggered = false;
            },
            Direction::Write => {
                self.write.triggered = false;
            },
        }
    }
}

/// The slot number in the low half of a token.
pub open spec fn slot_of(token: usize) -> int {
    token as int % 0x1_0000_0000
}

/// The sources after a list of reports.
pub open spec fn after_events<W>(sources: Seq<Option<Source<W>>>, events: Seq<Event>) -> Seq<
    Option<Source<W>>,
>
    decreases events.len(),
{
    if events.len() == 0 {
        sources
    } else {
        let before = after_events(sources, events.drop_last());
        let event = events.last();
        match before[slot_of(event.token)] {
            None => before,
            Some(source) => before.update(
                slot_of(event.token),
                Some(source.fired(event.is_readable, event.is_writable)),
            ),
        }
    }
}

/// Whom a list of reports wakes. A report for a socket that is gone wakes nobody.
pub open spec fn woken_by<W>(sources: Seq<Option<Source<W>>>, events: Seq<Event>) -> Seq<W>
    decreases events.len(),
{
    if events.len() == 0 {
        Seq::empty()
    } else {
        let before = after_events(sources, events.drop_last());
        let event = events.last();
        woken_by(sources, events.drop_last()) + match before[slot_of(event.token)] {
            None => Seq::empty(),
            Some(source) => source.woken(event.is_readable, event.is_writable),
        }
    }
}

/// The sources of all queue slots. `W` wakes a task.
#[derive(Debug)]
pub struct Reactor<W> {
    sources: Vec<Option<Source<W>>>,
}

impl<W> View for Reactor<W> {
    type V = Seq<Option<Source<W>>>;

    closed spec fn view(&self) -> Seq<Option<Source<W>>> {
        self.sources@
    }
}

impl<W> Reactor<W> {
    /// The reactor that exists already, or a new one without sources.
    pub fn get_or_init(
        existing: Option<Self>,
        bucket_count: usize,
        io_resources: IoResources,
    ) -> (reactor: Self)
        requires
            existing is None ==> io_resources.wf() && bucket_count * io_resources.slots()
                <= u32::MAX,
        ensures
            match existing {
                Some(existing) => reactor == existing,
                None => reactor@ == Seq::new(
                    (bucket_count * io_resources.slots()) as nat,
                    |i: int| None::<Source<W>>,
                ),
            },
    {
        match existing {
            Some(reactor) => reactor,
            None => {
                let queue_capacity: usize = bucket_count * io_resources.per_bucket();
                let mut sources: Vec<Option<Source<W>>> = Vec::new();
                while sources.len() < queue_capacity
                    invariant
                        sources.len() <= queue_capacity,
                        forall|i: int|
                            0 <= i < sources@.len() ==> #[trigger] sources@[i] == None::<Source<W>>,
                    decreases queue_capacity - sources.len(),
                {
                    sources.push(None);
                }
                let reactor = Reactor { sources };
                assert(reactor@ =~= Seq::new(
                    (bucket_count * io_resources.slots()) as nat,
                    |i: int| None::<Source<W>>,
                ));
                reactor
            },
        }
    }

    /// Adds a source for a queue slot that has none. The result is the token to register the
    /// socket under; everything is in place to handle its events.
    pub fn register(&mut self, index: QueueIndex) -> (token: usize)
        requires
            usize::BITS == 64,
            index.index < old(self)@.len(),
            old(self)@[index.index as int] is None,
        ensures
            token == index.word(),
            slot_of(token) == index.index,
            final(self)@ == old(self)@.update(index.index as int, Some(Source::fresh())),
    {
        self.sources[index.index as usize] = Some(Source::new());
        index.to_usize()
    }

    /// Removes the source of a queue slot.
    pub fn deregister(&mut self, token: usize)
        requires
            usize::BITS == 64,
            slot_of(token) < old(self)@.len(),
            old(self)@[slot_of(token)] is Some,
        ensures
            final(self)@ == old(self)@.update(slot_of(token), None),
    {
        let index = QueueIndex::from_usize(token);
        assert(index.index == slot_of(token));
        self.sources[index.index as usize] = None;
    }

    /// Whether a queue slot has a source.
    pub fn has_source(&self, index: QueueIndex) -> (result: bool)
        ensures
            result == (index.index < self@.len() && self@[index.index as int] is Some),
    {
        (index.index as usize) < self.sources.len() && self.sources[index.index as usize].is_some()
    }

    pub fn capacity(&self) -> (capacity: usize)
        ensures
            capacity == self@.len(),
    {
        self.sources.len()
    }

    /// Who waits for one direction of a source.
    pub fn interest(&self, token: usize, direction: Direction) -> (interest: Option<&W>)
        requires
            usize::BITS == 64,
            slot_of(token) < self@.len(),
        ensures
            match interest {
                Some(waker) => self@[slot_of(token)] matches Some(source) && source.side(
                    direction,
                ).interest == Some(*waker),
                None => self@[slot_of(token)] matches Some(source) ==> source.side(
                    direction,
                ).interest is None,
            },
    {
        let index = QueueIndex::from_usize(token);
        assert(index.index == slot_of(token));
        match &self.sources[index.index as usize] {
            None => None,
            Some(source) => match direction {
                Direction::Read => source.read.interest.as_ref(),
                Direction::Write => source.write.interest.as_ref(),
            },
        }
    }

    /// The first step of reading or writing. A task whose source is gone waits.
    pub fn poll_io(
        &mut self,
        token: usize,
        direction: Direction,
        waker: W,
        has_right_waker: bool,
    ) -> (step: IoStep)
        requires
            usize::BITS == 64,
            slot_of(token) < old(self)@.len(),
        ensures
            match old(self)@[slot_of(token)] {
                None => step == IoStep::Pending && final(self)@ == old(self)@,
                Some(source) => {
                    let side = source.side(direction);
                    &&& step == if side.triggered {
                        IoStep::Try
                    } else {
                        IoStep::Pending
                    }
                    &&& final(self)@ == old(self)@.update(
                        slot_of(token),
                        Some(source.with_side(direction, side.awaited(waker, has_right_waker))),
                    )
                },
            },
    {
        let index = QueueIndex::from_usize(token);
        assert(index.index == slot_of(token));
        match self.sources[index.index as usize].take() {
            None => {
                assert(self@ =~= old(self)@);
                IoStep::Pending
            },
            Some(source) => {
                let mut source = source;
                let is_ready = source.poll_ready(direction, waker, has_right_waker);
                self.sources[index.index as usize] = Some(source);
                proof {
                    let before = old(self)@[slot_of(token)]->0;
                    let side = before.side(direction);
                    assert(self@ =~= old(self)@.update(
                        slot_of(token),
                        Some(before.with_side(direction, side.awaited(waker, has_right_waker))),
                    ));
                }
                if is_ready {
                    IoStep::Try
                } else {
                    IoStep::Pending
                }
            },
        }
    }

    /// An attempt to read or write would have blocked: the direction is not ready any more.
    pub fn clear_trigger(&mut self, token: usize, direction: Direction)
        requires
            usize::BITS == 64,
            slot_of(token) < old(self)@.len(),
            old(self)@[slot_of(token)] is Some,
        ensures
            ({
                let source = old(self)@[slot_of(token)]->0;
                final(self)@ == old(self)@.update(
                    slot_of(token),
                    Some(
                        source.with_side(
                            direction,
                            (Side { triggered: false, ..source.side(direction) }),
                        ),
                    ),
                )
            }),
    {
        let index = QueueIndex::from_usize(token);
        assert(index.index == slot_of(token));
        if let Some(source) = self.sources[index.index as usize].take() {
            let mut source = source;
            source.clear_trigger(direction);
            self.sources[index.index as usize] = Some(source);
        }
        proof {
            let source = old(self)@[slot_of(token)]->0;
            assert(self@ =~= old(self)@.update(
                slot_of(token),
                Some(
                    source.with_side(
                        direction,
                        (Side { triggered: false, ..source.side(direction) }),
                    ),
                ),
            ));
        }
    }

    /// What follows an attempt to read or write. One that would have blocked is made again when
    /// the socket is ready; any other is over.
    pub fn after_attempt(&mut self, token: usize, direction: Direction, would_block: bool) -> (again:
        bool)
        requires
            usize::BITS == 64,
            slot_of(token) < old(self)@.len(),
            old(self)@[slot_of(token)] is Some,
        ensures
            again == would_block,
            final(self)@ == if would_block {
                let source = old(self)@[slot_of(token)]->0;
                old(self)@.update(
                    slot_of(token),
                    Some(
                        source.with_side(
                            direction,
                            (Side { triggered: false, ..source.side(direction) }),
                        ),
                    ),
                )
            } else {
                old(self)@
            },
    {
        if would_block {
            self.clear_trigger(token, direction);
        }
        would_block
    }

    /// Takes note of a list of reports, and tells whom to wake.
    fn handle_events(&mut self, events: &Vec<Event>) -> (wakers: Vec<W>)
        requires
            usize::BITS == 64,
            forall|i: int|
                0 <= i < events@.len() ==> slot_of((#[trigger] events@[i]).token) < old(self)@.len(),
        ensures
            final(self)@ == after_events(old(self)@, events@),
            wakers@ == woken_by(old(self)@, events@),
    {
        let mut wakers: Vec<W> = Vec::new();
        let mut i: usize = 0;
        assert(events@.take(0) =~= Seq::<Event>::empty());
        while i < events.len()
            invariant
                usize::BITS == 64,
                i <= events@.len(),
                self@.len() == old(self)@.len(),
                forall|j: int|
                    0 <= j < events@.len() ==> slot_of((#[trigger] events@[j]).token) < old(
                        self,
                    )@.len(),
                self@ == after_events(old(self)@, events@.take(i as int)),
                wakers@ == woken_by(old(self)@, events@.take(i as int)),
            decreases events.len() - i,
        {
            let ghost before = self@;
            let event = events[i];
            let index = QueueIndex::from_usize(event.token);
            proof {
                assert(index.index == slot_of(event.token));
                assert(slot_of(events@[i as int].token) < old(self)@.len());
                assert(events@.take(i + 1).drop_last() =~= events@.take(i as int));
                assert(events@.take(i + 1).last() == event);
            }
            match self.sources[index.index as usize].take() {
                None => {
                    assert(self@ =~= before);
                    assert(wakers@ =~= wakers@ + Seq::<W>::empty());
                },
                Some(source) => {
                    let mut source = source;
                    source.fire(event.is_readable, event.is_writable, &mut wakers);
                    self.sources[index.index as usize] = Some(source);
                    assert(self@ =~= before.update(slot_of(event.token), Some(source)));
                },
            }
            i = i + 1;
        }
        assert(events@.take(i as int) =~= events@);
        wakers
    }

    /// One turn of the event loop. An interruption is no error; any other failure is handed on.
    pub fn poll(&mut self, outcome: PollOutcome) -> (wakers: Result<Vec<W>, std::io::Error>)
        requires
            usize::BITS == 64,
            outcome matches PollOutcome::Events(events) ==> forall|i: int|
                0 <= i < events@.len() ==> slot_of((#[trigger] events@[i]).token) < old(self)@.len(),
        ensures
            match outcome {
                PollOutcome::Events(events) => {
                    &&& wakers is Ok
                    &&& wakers->Ok_0@ == woken_by(old(self)@, events@)
                    &&& final(self)@ == after_events(old(self)@, events@)
                },
                PollOutcome::Interrupted => {
                    &&& wakers is Ok
                    &&& wakers->Ok_0@ == Seq::<W>::empty()
                    &&& final(self)@ == old(self)@
                },
                PollOutcome::Failed(error) => {
                    &&& wakers == Err::<Vec<W>, std::io::Error>(error)
                    &&& final(self)@ == old(self)@
                },
            },
    {
        match outcome {
            PollOutcome::Events(events) => Ok(self.handle_events(&events)),
            PollOutcome::Interrupted => Ok(Vec::new()),
            PollOutcome::Failed(error) => Err(error),
        }
    }
}

/// How many bytes a single read of an outgoing connection moves at most.
pub const READ_LIMIT: usize = 1024;

/// How many bytes to read into a buffer with so many bytes left.
pub fn read_length(remaining: usize) -> (length: usize)
    ensures
        length == if remaining < READ_LIMIT {
            remaining
        } else {
            READ_LIMIT
        },
{
    if remaining < READ_LIMIT {
        remaining
    } else {
        READ_LIMIT
    }
}

/// A task that was told to wait is woken by the next report for its direction, and then tries.
pub proof fn law_waiting_task_is_woken<W>(
    source: Source<W>,
    direction: Direction,
    waker: W,
    readable: bool,
    writable: bool,
)
    requires
        !source.side(direction).triggered,
        (direction is Read && readable) || (direction is Write && writable),
    ensures
        ({
            let waiting = source.with_side(direction, source.side(direction).awaited(waker, false));
            &&& waiting.woken(readable, writable).contains(waker)
            &&& waiting.fired(readable, writable).side(direction).triggered
        }),
{
    let waiting = source.with_side(direction, source.side(direction).awaited(waker, false));
    let woken = waiting.woken(readable, writable);
    match direction {
        Direction::Read => {
            assert(woken[0] == waker);
        },
        Direction::Write => {
            assert(woken[woken.len() - 1] == waker);
        },
    }
}

/// A report that comes while nobody waits is not lost: whoever asks next may try at once, until
/// an attempt would have blocked.
pub proof fn law_readiness_is_kept<W>(
    source: Source<W>,
    direction: Direction,
    readable: bool,
    writable: bool,
    waker: W,
    has_right_waker: bool,
)
    requires
        source.side(direction).triggered,
    ensures
        source.fired(readable, writable).side(direction).triggered,
        source.side(direction).awaited(waker, has_right_waker) == source.side(direction),
{
}

/// Nobody is woken twice by the same wait: a report takes the wakers that it wakes.
pub proof fn law_wakers_are_used_once<W>(source: Source<W>, readable: bool, writable: bool)
    ensures
        source.fired(readable, writable).woken(readable, writable) == Seq::<W>::empty(),
{
    assert(source.fired(readable, writable).woken(readable, writable) =~= Seq::<W>::empty());
}

/// Reports about one socket leave the others alone.
pub proof fn law_events_are_local<W>(
    sources: Seq<Option<Source<W>>>,
    events: Seq<Event>,
    slot: int,
)
    requires
        0 <= slot < sources.len(),
        forall|i: int|
            0 <= i < events.len() ==> slot_of((#[trigger] events[i]).token) < sources.len()
                && slot_of(events[i].token) != slot,
    ensures
        after_events(sources, events).len() == sources.len(),
        after_events(sources, events)[slot] == sources[slot],
    decreases events.len(),
{
    if events.len() > 0 {
        let earlier = events.drop_last();
        assert forall|i: int| 0 <= i < earlier.len() implies slot_of((#[trigger] earlier[i]).token)
            < sources.len() && slot_of(earlier[i].token) != slot by {
            assert(earlier[i] == events[i]);
        }
        law_events_are_local(sources, earlier, slot);
        assert(slot_of(events[events.len() - 1].token) != slot);
    }
}

/// A report touches only the directions that it is about. A direction that it is about is ready,
/// and nobody waits for it any more; the other keeps its readiness and its waker.
pub proof fn law_reports_touch_only_their_direction<W>(
    source: Source<W>,
    readable: bool,
    writable: bool,
)
    ensures
        !readable ==> source.fired(readable, writable).read == source.read,
        !writable ==> source.fired(readable, writable).write == source.write,
        readable ==> source.fired(readable, writable).read.triggered && source.fired(
            readable,
            writable,
        ).read.interest is None,
        writable ==> source.fired(readable, writable).write.triggered && source.fired(
            readable,
            writable,
        ).write.interest is None,
{
}

/// A report wakes exactly who waits for a direction that it is about: who waits to read first.
pub proof fn law_reports_wake_who_waits<W>(source: Source<W>, readable: bool, writable: bool)
    ensures
        ({
            let woken = source.woken(readable, writable);
            let reader = readable && source.read.interest is Some;
            let writer = writable && source.write.interest is Some;
            &&& woken.len() == (if reader {
                1int
            } else {
                0int
            }) + (if writer {
                1int
            } else {
                0int
            })
            &&& reader ==> Some(woken[0]) == source.read.interest
            &&& writer ==> Some(woken[woken.len() - 1]) == source.write.interest
        }),
{
}

/// A task that is told to wait will be woken: its waker is kept, or one that is as good. A task
/// that need not wait leaves everything as it is, and asking never makes a socket ready or not.
pub proof fn law_waiting_keeps_a_waker<W>(side: Side<W>, waker: W, has_right_waker: bool)
    ensures
        ({
            let after = side.awaited(waker, has_right_waker);
            &&& after.triggered == side.triggered
            &&& side.triggered ==> after == side
            &&& !side.triggered ==> after.interest is Some
            &&& !side.triggered && (!has_right_waker || side.interest is None) ==> after.interest
                == Some(waker)
            &&& side.interest is Some && has_right_waker ==> after.interest == side.interest
        }),
{
}

/// Reading and writing are apart: to change the one side of a source leaves the other alone.
pub proof fn law_sides_are_apart<W>(source: Source<W>, side: Side<W>)
    ensures
        source.side(Direction::Read) == source.read,
        source.side(Direction::Write) == source.write,
        source.with_side(Direction::Read, side).read == side,
        source.with_side(Direction::Read, side).write == source.write,
        source.with_side(Direction::Write, side).write == side,
        source.with_side(Direction::Write, side).read == source.read,
        !Source::<W>::fresh().read.triggered && Source::<W>::fresh().read.interest is None,
        !Source::<W>::fresh().write.triggered && Source::<W>::fresh().write.interest is None,
{
}

/// The token of a queue slot leads back to the slot, whatever its identifier is.
pub proof fn law_tokens_lead_back_to_their_slot(index: QueueIndex, token: usize)
    requires
        token == index.identifier * 0x1_0000_0000 + index.index,
    ensures
        slot_of(token) == index.index,
{
}

/// Whether a report is about a direction of the source of a slot.
pub open spec fn is_about(event: Event, slot: int, direction: Direction) -> bool {
    &&& event.token as int % 0x1_0000_0000 == slot
    &&& match direction {
        Direction::Read => event.is_readable,
        Direction::Write => event.is_writable,
    }
}

/// A waker is kept until a report about its own direction comes: whatever else is reported, the
/// side stays as it is.
pub proof fn law_wakers_are_kept_until_their_report<W>(
    sources: Seq<Option<Source<W>>>,
    events: Seq<Event>,
    slot: int,
    direction: Direction,
)
    requires
        0 <= slot < sources.len(),
        forall|i: int|
            0 <= i < events.len() ==> (#[trigger] events[i]).token as int % 0x1_0000_0000
                < sources.len() && !is_about(events[i], slot, direction),
    ensures
        after_events(sources, events).len() == sources.len(),
        after_events(sources, events)[slot] is Some <==> sources[slot] is Some,
        sources[slot] is Some ==> match direction {
            Direction::Read => after_events(sources, events)[slot]->0.read
                == sources[slot]->0.read,
            Direction::Write => after_events(sources, events)[slot]->0.write
                == sources[slot]->0.write,
        },
    decreases events.len(),
{
    if events.len() > 0 {
        let earlier = events.drop_last();
        assert forall|i: int| 0 <= i < earlier.len() implies (#[trigger] earlier[i]).token as int
            % 0x1_0000_0000 < sources.len() && !is_about(earlier[i], slot, direction) by {
            assert(earlier[i] == events[i]);
        }
        law_wakers_are_kept_until_their_report(sources, earlier, slot, direction);
        assert(!is_about(events[events.len() - 1], slot, direction));
    }
}

/// A report in a list wakes who waits for its direction, and makes the direction ready, whatever
/// else is reported along with it.
pub proof fn law_reports_in_a_list_wake_who_waits<W>(
    sources: Seq<Option<Source<W>>>,
    events: Seq<Event>,
    k: int,
    slot: int,
    direction: Direction,
    waker: W,
)
    requires
        0 <= slot < sources.len(),
        0 <= k < events.len(),
        forall|i: int|
            0 <= i < events.len() ==> (#[trigger] events[i]).token as int % 0x1_0000_0000
                < sources.len(),
        is_about(events[k], slot, direction),
        forall|i: int| 0 <= i < k ==> !is_about(#[trigger] events[i], slot, direction),
        sources[slot] matches Some(source) && match direction {
            Direction::Read => source.read.interest == Some(waker),
            Direction::Write => source.write.interest == Some(waker),
        },
    ensures
        woken_by(sources, events).contains(waker),
        after_events(sources, events)[slot] matches Some(source) && match direction {
            Direction::Read => source.read.triggered,
            Direction::Write => source.write.triggered,
        },
    decreases events.len(),
{
    let earlier = events.drop_last();
    let last = events.len() - 1;
    let before = after_events(sources, earlier);
    if k == last {
        assert forall|i: int| 0 <= i < earlier.len() implies (#[trigger] earlier[i]).token as int
            % 0x1_0000_0000 < sources.len() && !is_about(earlier[i], slot, direction) by {
            assert(earlier[i] == events[i]);
        }
        law_wakers_are_kept_until_their_report(sources, earlier, slot, direction);
        let source = before[slot]->0;
        let woken = source.woken(events[k].is_readable, events[k].is_writable);
        law_reports_wake_who_waits(source, events[k].is_readable, events[k].is_writable);
        let position = match direction {
            Direction::Read => 0,
            Direction::Write => woken.len() - 1,
        };
        assert(woken[position] == waker);
        assert(woken_by(sources, events)[woken_by(sources, earlier).len() + position] == waker);
    } else {
        assert(earlier[k] == events[k]);
        assert forall|i: int| 0 <= i < earlier.len() implies (#[trigger] earlier[i]).token as int
            % 0x1_0000_0000 < sources.len() by {
            assert(earlier[i] == events[i]);
        }
        assert forall|i: int| 0 <= i < k implies !is_about(
            #[trigger] earlier[i],
            slot,
            direction,
        ) by {
            assert(earlier[i] == events[i]);
        }
        law_reports_in_a_list_wake_who_waits(sources, earlier, k, slot, direction, waker);
        let woken = woken_by(sources, earlier);
        let position = choose|i: int| 0 <= i < woken.len() && woken[i] == waker;
        assert(woken_by(sources, events)[position] == waker);
        lemma_after_events_len(sources, earlier);
        assert(events[last].token as int % 0x1_0000_0000 < sources.len());
    }
}

proof fn lemma_after_events_len<W>(sources: Seq<Option<Source<W>>>, events: Seq<Event>)
    requires
        forall|i: int|
            0 <= i < events.len() ==> (#[trigger] events[i]).token as int % 0x1_0000_0000
                < sources.len(),
    ensures
        after_events(sources, events).len() == sources.len(),
    decreases events.len(),
{
    if events.len() > 0 {
        let earlier = events.drop_last();
        assert forall|i: int| 0 <= i < earlier.len() implies (#[trigger] earlier[i]).token as int
            % 0x1_0000_0000 < sources.len() by {
            assert(earlier[i] == events[i]);
        }
        lemma_after_events_len(sources, earlier);
        assert((events[events.len() - 1]).token as int % 0x1_0000_0000 < sources.len());
    }
}

/// Reports are handled one by one: each touches the source of its slot as it is then, wakes whom that
/// source keeps, and touches no other. A report for a slot without a source changes nothing and
/// wakes nobody.
pub proof fn law_reports_are_handled_one_by_one<W>(
    sources: Seq<Option<Source<W>>>,
    events: Seq<Event>,
    event: Event,
    other: int,
)
    requires
        after_events(sources, events).len() == sources.len(),
        event.token as int % 0x1_0000_0000 < sources.len(),
        0 <= other < sources.len(),
        other != event.token as int % 0x1_0000_0000,
    ensures
        after_events(sources, Seq::empty()) == sources,
        woken_by(sources, Seq::empty()).len() == 0,
        ({
            let slot = event.token as int % 0x1_0000_0000;
            let before = after_events(sources, events);
            let after = after_events(sources, events.push(event));
            &&& after.len() == sources.len()
            &&& after[other] == before[other]
            &&& match before[slot] {
                None => after[slot] is None && woken_by(sources, events.push(event)) == woken_by(
                    sources,
                    events,
                ),
                Some(source) => after[slot] == Some(
                    source.fired(event.is_readable, event.is_writable),
                ) && woken_by(sources, events.push(event)) == woken_by(sources, events)
                    + source.woken(event.is_readable, event.is_writable),
            }
        }),
{
    assert(events.push(event).drop_last() =~= events);
    assert(woken_by(sources, events) + Seq::<W>::empty() =~= woken_by(sources, events));
}

} // verus!
