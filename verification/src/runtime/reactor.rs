//! A reactor that numbers its sockets one after the other.
use crate::reactor;
use crate::reactor::{Direction, Event, IoStep, PollOutcome, Side, Source};
use std::collections::HashMap;
use vstd::prelude::*;

verus! {

broadcast use vstd::std_specs::hash::group_hash_axioms;

/// How many sources and events there is room for from the start.
pub const CAPACITY: usize = 64;

/// The sources, by token. `W` wakes a task.
#[derive(Debug)]
pub struct Reactor<W> {
    token: usize,
    sources: HashMap<usize, Source<W>>,
}

/// The sources after a list of reports. A socket that is readable counts as writable.
pub open spec fn after_events<W>(sources: Map<usize, Source<W>>, events: Seq<Event>) -> Map<
    usize,
    Source<W>,
>
    decreases events.len(),
{
    if events.len() == 0 {
        sources
    } else {
        let before = after_events(sources, events.drop_last());
        let event = events.last();
        if before.dom().contains(event.token) {
            before.insert(
                event.token,
                before[event.token].fired(event.is_readable, event.is_readable),
            )
        } else {
            before
        }
    }
}

/// Whom a list of reports wakes. A report for a socket that is gone wakes nobody.
pub open spec fn woken_by<W>(sources: Map<usize, Source<W>>, events: Seq<Event>) -> Seq<W>
    decreases events.len(),
{
    if events.len() == 0 {
        Seq::empty()
    } else {
        let before = after_events(sources, events.drop_last());
        let event = events.last();
        woken_by(sources, events.drop_last()) + if before.dom().contains(event.token) {
            before[event.token].woken(event.is_readable, event.is_readable)
        } else {
            Seq::empty()
        }
    }
}

impl<W> Reactor<W> {
    pub closed spec fn sources(&self) -> Map<usize, Source<W>> {
        self.sources@
    }

    /// The token of the next socket.
    pub closed spec fn next_token(&self) -> usize {
        self.token
    }

    /// The reactor that exists already, or a new one without sources.
    pub fn get(existing: Option<Self>) -> (reactor: Self)
        ensures
            match existing {
                Some(existing) => reactor == existing,
                None => reactor.sources() == Map::<usize, Source<W>>::empty()
                    && reactor.next_token() == 0,
            },
    {
        match existing {
            Some(reactor) => reactor,
            None => Reactor { token: 0, sources: HashMap::with_capacity(CAPACITY) },
        }
    }

    /// Adds a source. The result is the token to register the socket under.
    pub fn register(&mut self) -> (token: usize)
        ensures
            token == old(self).next_token(),
            final(self).next_token() == if token == usize::MAX {
                0
            } else {
                token + 1
            },
            final(self).sources() == old(self).sources().insert(token, Source::fresh()),
    {
        let token: usize = self.token;
        self.token = token.wrapping_add(1);
        self.sources.insert(token, Source::new());
        token
    }

    /// Removes a source, if it is there.
    pub fn deregister(&mut self, token: usize)
        ensures
            final(self).next_token() == old(self).next_token(),
            final(self).sources() == old(self).sources().remove(token),
    {
        let _ = self.sources.remove(&token);
        assert(self.sources() =~= old(self).sources().remove(token));
    }

    pub fn has_source(&self, token: usize) -> (result: bool)
        ensures
            result == self.sources().dom().contains(token),
    {
        self.sources.contains_key(&token)
    }

    /// Who waits for one direction of a source.
    pub fn interest(&self, token: usize, direction: Direction) -> (interest: Option<&W>)
        requires
            self.sources().dom().contains(token),
        ensures
            match interest {
                Some(waker) => self.sources()[token].side(direction).interest == Some(*waker),
                None => self.sources()[token].side(direction).interest is None,
            },
    {
        match self.sources.get(&token) {
            None => None,
            Some(source) => match direction {
                Direction::Read => source.read.interest.as_ref(),
                Direction::Write => source.write.interest.as_ref(),
            },
        }
    }

    /// The first step of reading or writing.
    pub fn poll_io(
        &mut self,
        token: usize,
        direction: Direction,
        waker: W,
        has_right_waker: bool,
    ) -> (step: IoStep)
        requires
            old(self).sources().dom().contains(token),
        ensures
            final(self).next_token() == old(self).next_token(),
            ({
                let source = old(self).sources()[token];
                let side = source.side(direction);
                &&& step == if side.triggered {
                    IoStep::Try
                } else {
                    IoStep::Pending
                }
                &&& final(self).sources() == old(self).sources().insert(
                    token,
                    source.with_side(direction, side.awaited(waker, has_right_waker)),
                )
            }),
    {
        let mut is_ready = false;
        if let Some(source) = self.sources.remove(&token) {
            let mut source = source;
            is_ready = source.poll_ready(direction, waker, has_right_waker);
            self.sources.insert(token, source);
        }
        proof {
            let source = old(self).sources()[token];
            let side = source.side(direction);
            assert(self.sources() =~= old(self).sources().insert(
                token,
                source.with_side(direction, side.awaited(waker, has_right_waker)),
            ));
        }
        if is_ready {
            IoStep::Try
        } else {
            IoStep::Pending
        }
    }

    /// An attempt to read or write would have blocked: the direction is not ready any more.
    pub fn clear_trigger(&mut self, token: usize, direction: Direction)
        requires
            old(self).sources().dom().contains(token),
        ensures
            final(self).next_token() == old(self).next_token(),
            ({
                let source = old(self).sources()[token];
                final(self).sources() == old(self).sources().insert(
                    token,
                    source.with_side(
                        direction,
                        (Side { triggered: false, ..source.side(direction) }),
                    ),
                )
            }),
    {
        if let Some(source) = self.sources.remove(&token) {
            let mut source = source;
            source.clear_trigger(direction);
            self.sources.insert(token, source);
        }
        proof {
            let source = old(self).sources()[token];
            assert(self.sources() =~= old(self).sources().insert(
                token,
                source.with_side(direction, (Side { triggered: false, ..source.side(direction) })),
            ));
        }
    }

    /// What follows an attempt to read or write. One that would have blocked is made again when
    /// the socket is ready; any other is over.
    pub fn after_attempt(&mut self, token: usize, direction: Direction, would_block: bool) -> (again:
        bool)
        requires
            old(self).sources().dom().contains(token),
        ensures
            again == would_block,
            final(self).next_token() == old(self).next_token(),
            final(self).sources() == if would_block {
                let source = old(self).sources()[token];
                old(self).sources().insert(
                    token,
                    source.with_side(
                        direction,
                        (Side { triggered: false, ..source.side(direction) }),
                    ),
                )
            } else {
                old(self).sources()
            },
    {
        if would_block {
            self.clear_trigger(token, direction);
        }
        would_block
    }

    /// Takes note of a list of reports, and tells whom to wake.
    fn handle_events(&mut self, events: &Vec<Event>) -> (wakers: Vec<W>)
        ensures
            final(self).next_token() == old(self).next_token(),
            final(self).sources() == after_events(old(self).sources(), events@),
            wakers@ == woken_by(old(self).sources(), events@),
    {
        let mut wakers: Vec<W> = Vec::new();
        let mut i: usize = 0;
        assert(events@.take(0) =~= Seq::<Event>::empty());
        while i < events.len()
            invariant
                i <= events@.len(),
                self.next_token() == old(self).next_token(),
                self.sources() == after_events(old(self).sources(), events@.take(i as int)),
                wakers@ == woken_by(old(self).sources(), events@.take(i as int)),
            decreases events.len() - i,
        {
            let ghost before = self.sources();
            let event = events[i];
            proof {
                assert(events@.take(i + 1).drop_last() =~= events@.take(i as int));
                assert(events@.take(i + 1).last() == event);
            }
            match self.sources.remove(&event.token) {
                None => {
                    assert(self.sources() =~= before);
                    assert(wakers@ =~= wakers@ + Seq::<W>::empty());
                },
                Some(source) => {
                    let mut source = source;
                    source.fire(event.is_readable, event.is_readable, &mut wakers);
                    self.sources.insert(event.token, source);
                    assert(self.sources() =~= before.insert(event.token, source));
                },
            }
            i = i + 1;
        }
        assert(events@.take(i as int) =~= events@);
        wakers
    }

    /// One turn of the event loop. An interruption is no error; any other failure is handed on.
    pub fn poll(&mut self, outcome: PollOutcome) -> (wakers: Result<Vec<W>, std::io::Error>)
        ensures
            final(self).next_token() == old(self).next_token(),
            match outcome {
                PollOutcome::Events(events) => {
                    &&& wakers is Ok
                    &&& wakers->Ok_0@ == woken_by(old(self).sources(), events@)
                    &&& final(self).sources() == after_events(old(self).sources(), events@)
                },
                PollOutcome::Interrupted => {
                    &&& wakers is Ok
                    &&& wakers->Ok_0@ == Seq::<W>::empty()
                    &&& final(self).sources() == old(self).sources()
                },
                PollOutcome::Failed(error) => {
                    &&& wakers == Err::<Vec<W>, std::io::Error>(error)
                    &&& final(self).sources() == old(self).sources()
                },
            },
    {
        match outcome {
            PollOutcome::Events(events) => Ok(self.handle_events(&events)),
            PollOutcome::Interrupted => Ok(Vec::new()),
            PollOutcome::Failed(error) => Err(error),
        }
    }
}

/// Reports about one socket leave the others alone.
pub proof fn law_events_are_local<W>(
    sources: Map<usize, Source<W>>,
    events: Seq<Event>,
    token: usize,
)
    requires
        forall|i: int| 0 <= i < events.len() ==> (#[trigger] events[i]).token != token,
    ensures
        after_events(sources, events).dom() == sources.dom(),
        sources.dom().contains(token) ==> after_events(sources, events)[token] == sources[token],
    decreases events.len(),
{
    if events.len() > 0 {
        let earlier = events.drop_last();
        assert forall|i: int| 0 <= i < earlier.len() implies (#[trigger] earlier[i]).token
            != token by {
            assert(earlier[i] == events[i]);
        }
        law_events_are_local(sources, earlier, token);
        assert(events[events.len() - 1].token != token);
        assert(after_events(sources, events).dom() =~= sources.dom());
    }
}

/// A waker is kept until its socket is readable: whatever else is reported, its source stays as
/// it is.
pub proof fn law_wakers_are_kept_until_their_report<W>(
    sources: Map<usize, Source<W>>,
    events: Seq<Event>,
    token: usize,
)
    requires
        sources.dom().contains(token),
        forall|i: int|
            0 <= i < events.len() ==> !((#[trigger] events[i]).token == token
                && events[i].is_readable),
    ensures
        after_events(sources, events).dom() == sources.dom(),
        after_events(sources, events)[token] == sources[token],
    decreases events.len(),
{
    if events.len() > 0 {
        let earlier = events.drop_last();
        assert forall|i: int| 0 <= i < earlier.len() implies !((#[trigger] earlier[i]).token
            == token && earlier[i].is_readable) by {
            assert(earlier[i] == events[i]);
        }
        law_wakers_are_kept_until_their_report(sources, earlier, token);
        let last = events[events.len() - 1];
        assert(!(last.token == token && last.is_readable));
        assert(after_events(sources, events).dom() =~= sources.dom());
    }
}

/// A socket that is reported readable is ready in both directions, and who waits for it is woken,
/// whatever else is reported along with it.
pub proof fn law_reports_in_a_list_wake_who_waits<W>(
    sources: Map<usize, Source<W>>,
    events: Seq<Event>,
    k: int,
    token: usize,
    waker: W,
)
    requires
        sources.dom().contains(token),
        0 <= k < events.len(),
        events[k].token == token,
        events[k].is_readable,
        forall|i: int|
            0 <= i < k ==> !((#[trigger] events[i]).token == token && events[i].is_readable),
        sources[token].read.interest == Some(waker) || sources[token].write.interest == Some(waker),
    ensures
        woken_by(sources, events).contains(waker),
        after_events(sources, events).dom() == sources.dom(),
        after_events(sources, events)[token].read.triggered,
        after_events(sources, events)[token].write.triggered,
    decreases events.len(),
{
    let earlier = events.drop_last();
    let last = events.len() - 1;
    let before = after_events(sources, earlier);
    if k == last {
        assert forall|i: int| 0 <= i < earlier.len() implies !((#[trigger] earlier[i]).token
            == token && earlier[i].is_readable) by {
            assert(earlier[i] == events[i]);
        }
        law_wakers_are_kept_until_their_report(sources, earlier, token);
        let woken = before[token].woken(true, true);
        reactor::law_reports_wake_who_waits(before[token], true, true);
        let position = if before[token].read.interest == Some(waker) {
            0
        } else {
            woken.len() - 1
        };
        assert(woken[position] == waker);
        assert(woken_by(sources, events)[woken_by(sources, earlier).len() + position] == waker);
    } else {
        assert(earlier[k] == events[k]);
        assert forall|i: int| 0 <= i < k implies !((#[trigger] earlier[i]).token == token
            && earlier[i].is_readable) by {
            assert(earlier[i] == events[i]);
        }
        law_reports_in_a_list_wake_who_waits(sources, earlier, k, token, waker);
        let woken = woken_by(sources, earlier);
        let position = choose|i: int| 0 <= i < woken.len() && woken[i] == waker;
        assert(woken_by(sources, events)[position] == waker);
    }
    assert(after_events(sources, events).dom() =~= sources.dom());
}

/// Reports are handled one by one: one that a socket is readable makes its source ready in both
/// directions and wakes whom it keeps. Any other report, and one for a socket that is gone, changes
/// nothing and wakes nobody; and no report touches another socket.
pub proof fn law_reports_are_handled_one_by_one<W>(
    sources: Map<usize, Source<W>>,
    events: Seq<Event>,
    event: Event,
    other: usize,
)
    requires
        other != event.token,
    ensures
        after_events(sources, Seq::empty()) == sources,
        woken_by(sources, Seq::empty()).len() == 0,
        ({
            let before = after_events(sources, events);
            let after = after_events(sources, events.push(event));
            let woken = woken_by(sources, events);
            let all_woken = woken_by(sources, events.push(event));
            &&& after.dom() == before.dom()
            &&& before.dom().contains(other) ==> after[other] == before[other]
            &&& !before.dom().contains(event.token) ==> all_woken == woken
            &&& before.dom().contains(event.token) && !event.is_readable ==> all_woken == woken
                && after[event.token] == before[event.token]
            &&& before.dom().contains(event.token) && event.is_readable ==> {
                let source = before[event.token];
                &&& after[event.token].read.triggered && after[event.token].read.interest is None
                &&& after[event.token].write.triggered && after[event.token].write.interest is None
                &&& all_woken == woken + source.woken(true, true)
            }
        }),
{
    assert(events.push(event).drop_last() =~= events);
    let before = after_events(sources, events);
    let after = after_events(sources, events.push(event));
    assert(after.dom() =~= before.dom());
    if before.dom().contains(event.token) {
        reactor::law_reports_touch_only_their_direction(
            before[event.token],
            event.is_readable,
            event.is_readable,
        );
        reactor::law_reports_wake_who_waits(before[event.token], false, false);
        assert(before[event.token].woken(false, false) =~= Seq::<W>::empty());
    }
    assert(woken_by(sources, events) + Seq::<W>::empty() =~= woken_by(sources, events));
}

} // verus!
