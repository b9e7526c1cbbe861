//! What holds of the lock-free queue when many threads use it at once.
//!
//! A thread that writes or reads an item takes several steps: it looks at the tail or the head,
//! looks at the stamp of a slot, claims a turn, moves the item, and sets the stamp. The steps of
//! different threads may come in any order. Turns are counted from the beginning here; the
//! position of a turn is made of a lap and an index as in [`crate::shared::queue`], with laps that
//! do not wrap around.
use vstd::arithmetic::div_mod;
use vstd::prelude::*;

verus! {

/// Whose slot it is.
pub enum Owner {
    /// The writer of this turn may claim it.
    Free { turn: nat },
    /// A thread writes the item of this turn.
    Writing { turn: nat, thread: int },
    /// The reader of this turn may claim it.
    Filled { turn: nat },
    /// A thread reads the item of this turn.
    Reading { turn: nat, thread: int },
}

/// How far a thread has come.
pub enum Phase<T> {
    Idle,
    /// It wants to write, and has looked at the tail.
    SawTail { item: T, tail: nat },
    /// It has found that the slot at the tail can be written.
    MayWrite { item: T, tail: nat },
    /// It has moved the tail.
    Claimed { item: T, turn: nat },
    /// It has put the item into the slot.
    Written { turn: nat },
    /// It wants to read, and has looked at the head.
    SawHead { head: nat },
    /// It has found that the slot at the head can be read.
    MayRead { head: nat },
    /// It has moved the head.
    Turned { turn: nat },
    /// It has taken the item out of the slot.
    Taken { turn: nat, item: T },
}

/// The queue, and the threads that use it.
#[verifier::ext_equal]
pub struct Machine<T> {
    pub capacity: nat,
    /// The distance between two laps.
    pub one_lap: int,
    /// The turn of the next reader.
    pub head: nat,
    /// The turn of the next writer.
    pub tail: nat,
    pub stamps: Seq<int>,
    pub values: Seq<Option<T>>,
    pub threads: Map<int, Phase<T>>,
    /// Whose slots they are. No thread looks at this.
    pub owners: Seq<Owner>,
    /// The items of all writers so far, in the order of their turns. No thread looks at this.
    pub pushed: Seq<T>,
}

/// One operation of one thread.
pub enum Step<T> {
    /// A thread begins to write an item: it looks at the tail.
    LookAtTail { thread: int, item: T },
    /// The thread looks at the tail again.
    LookAtTailAgain { thread: int },
    /// The stamp tells that the slot can be written.
    SeeFree { thread: int },
    /// The tail is still the same: the thread moves it.
    ClaimTail { thread: int },
    /// The thread puts its item into the slot.
    PutItem { thread: int },
    /// The thread sets the stamp.
    Publish { thread: int },
    /// The stamp tells that the slot was not emptied yet: the thread gives up.
    SeeFull { thread: int },
    /// A thread begins to read an item: it looks at the head.
    LookAtHead { thread: int },
    /// The thread looks at the head again.
    LookAtHeadAgain { thread: int },
    /// The stamp tells that the slot can be read.
    SeeFilled { thread: int },
    /// The head is still the same: the thread moves it.
    ClaimHead { thread: int },
    /// The thread takes the item out of the slot.
    TakeItem { thread: int },
    /// The thread sets the stamp.
    Release { thread: int },
    /// The tail is where the head was: the thread gives up.
    SeeEmpty { thread: int },
}

impl<T> Machine<T> {
    /// The slot of a turn.
    pub open spec fn slot(self, turn: nat) -> int {
        turn as int % self.capacity as int
    }

    /// The position of a turn: its lap and its index.
    pub open spec fn position(self, turn: nat) -> int {
        turn as int / self.capacity as int * self.one_lap + turn as int % self.capacity as int
    }

    /// A queue that nobody has touched.
    pub open spec fn initial(capacity: nat, one_lap: int) -> Self {
        Machine {
            capacity,
            one_lap,
            head: 0,
            tail: 0,
            stamps: Seq::new(capacity, |i: int| i),
            values: Seq::new(capacity, |i: int| None::<T>),
            threads: Map::empty(),
            owners: Seq::new(capacity, |i: int| Owner::Free { turn: i as nat }),
            pushed: Seq::empty(),
        }
    }

    pub open spec fn phase(self, thread: int) -> Phase<T> {
        if self.threads.dom().contains(thread) {
            self.threads[thread]
        } else {
            Phase::Idle
        }
    }

    /// Whether a thread can take the step. What it sees of the queue decides.
    pub open spec fn enabled(self, step: Step<T>) -> bool {
        match step {
            Step::LookAtTail { thread, .. } => self.phase(thread) is Idle,
            Step::LookAtTailAgain { thread } => self.phase(thread) is SawTail || self.phase(thread)
                is MayWrite,
            Step::SeeFree { thread } => self.phase(thread) matches Phase::SawTail { tail, .. }
                && self.stamps[self.slot(tail)] == self.position(tail),
            Step::ClaimTail { thread } => self.phase(thread) matches Phase::MayWrite { tail, .. }
                && self.tail == tail,
            Step::PutItem { thread } => self.phase(thread) is Claimed,
            Step::Publish { thread } => self.phase(thread) is Written,
            Step::SeeFull { thread } => self.phase(thread) matches Phase::SawTail { tail, .. }
                && self.stamps[self.slot(tail)] + self.one_lap == self.position(tail) + 1,
            Step::LookAtHead { thread } => self.phase(thread) is Idle,
            Step::LookAtHeadAgain { thread } => self.phase(thread) is SawHead || self.phase(thread)
                is MayRead,
            Step::SeeFilled { thread } => self.phase(thread) matches Phase::SawHead { head }
                && self.stamps[self.slot(head)] == self.position(head) + 1,
            Step::ClaimHead { thread } => self.phase(thread) matches Phase::MayRead { head }
                && self.head == head,
            Step::TakeItem { thread } => self.phase(thread) is Turned,
            Step::Release { thread } => self.phase(thread) is Taken,
            Step::SeeEmpty { thread } => self.phase(thread) matches Phase::SawHead { head }
                && self.tail == head,
        }
    }

    pub open spec fn with_phase(self, thread: int, phase: Phase<T>) -> Self {
        Machine { threads: self.threads.insert(thread, phase), ..self }
    }

    /// The queue after the step.
    pub open spec fn after(self, step: Step<T>) -> Self {
        match step {
            Step::LookAtTail { thread, item } => self.with_phase(
                thread,
                Phase::SawTail { item, tail: self.tail },
            ),
            Step::LookAtTailAgain { thread } => self.with_phase(
                thread,
                Phase::SawTail {
                    item: match self.phase(thread) {
                        Phase::SawTail { item, .. } => item,
                        Phase::MayWrite { item, .. } => item,
                        _ => arbitrary(),
                    },
                    tail: self.tail,
                },
            ),
            Step::SeeFree { thread } => match self.phase(thread) {
                Phase::SawTail { item, tail } => self.with_phase(
                    thread,
                    Phase::MayWrite { item, tail },
                ),
                _ => self,
            },
            Step::ClaimTail { thread } => match self.phase(thread) {
                Phase::MayWrite { item, tail } => Machine {
                    tail: tail + 1,
                    owners: self.owners.update(
                        self.slot(tail),
                        Owner::Writing { turn: tail, thread },
                    ),
                    pushed: self.pushed.push(item),
                    ..self.with_phase(thread, Phase::Claimed { item, turn: tail })
                },
                _ => self,
            },
            Step::PutItem { thread } => match self.phase(thread) {
                Phase::Claimed { item, turn } => Machine {
                    values: self.values.update(self.slot(turn), Some(item)),
                    ..self.with_phase(thread, Phase::Written { turn })
                },
                _ => self,
            },
            Step::Publish { thread } => match self.phase(thread) {
                Phase::Written { turn } => Machine {
                    stamps: self.stamps.update(self.slot(turn), self.position(turn) + 1),
                    owners: self.owners.update(self.slot(turn), Owner::Filled { turn }),
                    ..self.with_phase(thread, Phase::Idle)
                },
                _ => self,
            },
            Step::SeeFull { thread } => self.with_phase(thread, Phase::Idle),
            Step::LookAtHead { thread } => self.with_phase(
                thread,
                Phase::SawHead { head: self.head },
            ),
            Step::LookAtHeadAgain { thread } => self.with_phase(
                thread,
                Phase::SawHead { head: self.head },
            ),
            Step::SeeFilled { thread } => match self.phase(thread) {
                Phase::SawHead { head } => self.with_phase(thread, Phase::MayRead { head }),
                _ => self,
            },
            Step::ClaimHead { thread } => match self.phase(thread) {
                Phase::MayRead { head } => Machine {
                    head: head + 1,
                    owners: self.owners.update(
                        self.slot(head),
                        Owner::Reading { turn: head, thread },
                    ),
                    ..self.with_phase(thread, Phase::Turned { turn: head })
                },
                _ => self,
            },
            Step::TakeItem { thread } => match self.phase(thread) {
                Phase::Turned { turn } => Machine {
                    values: self.values.update(self.slot(turn), None),
                    ..self.with_phase(
                        thread,
                        Phase::Taken { turn, item: self.values[self.slot(turn)]->0 },
                    )
                },
                _ => self,
            },
            Step::Release { thread } => match self.phase(thread) {
                Phase::Taken { turn, .. } => Machine {
                    stamps: self.stamps.update(
                        self.slot(turn),
                        self.position(turn) + self.one_lap,
                    ),
                    owners: self.owners.update(
                        self.slot(turn),
                        Owner::Free { turn: turn + self.capacity },
                    ),
                    ..self.with_phase(thread, Phase::Idle)
                },
                _ => self,
            },
            Step::SeeEmpty { thread } => self.with_phase(thread, Phase::Idle),
        }
    }

    /// One thread takes one step.
    pub open spec fn next(self, other: Self) -> bool {
        exists|step: Step<T>| #[trigger] self.enabled(step) && other == self.after(step)
    }

    /// The stamp of a slot tells whose it is, and its item is there from when it was put until it
    /// was taken.
    pub open spec fn slot_is_sound(self, i: int) -> bool {
        match self.owners[i] {
            Owner::Free { turn } => {
                &&& self.slot(turn) == i
                &&& self.tail <= turn < self.head + self.capacity
                &&& self.stamps[i] == self.position(turn)
                &&& self.values[i] is None
            },
            Owner::Writing { turn, thread } => {
                &&& self.slot(turn) == i
                &&& self.head <= turn < self.tail
                &&& self.stamps[i] == self.position(turn)
                &&& match self.phase(thread) {
                    Phase::Claimed { item, turn: claimed } => claimed == turn && item
                        == self.pushed[turn as int] && self.values[i] is None,
                    Phase::Written { turn: claimed } => claimed == turn && self.values[i] == Some(
                        self.pushed[turn as int],
                    ),
                    _ => false,
                }
            },
            Owner::Filled { turn } => {
                &&& self.slot(turn) == i
                &&& self.head <= turn < self.tail
                &&& self.stamps[i] == self.position(turn) + 1
                &&& self.values[i] == Some(self.pushed[turn as int])
            },
            Owner::Reading { turn, thread } => {
                &&& self.slot(turn) == i
                &&& turn < self.head
                &&& self.tail <= turn + self.capacity
                &&& self.stamps[i] == self.position(turn) + 1
                &&& match self.phase(thread) {
                    Phase::Turned { turn: claimed } => claimed == turn && self.values[i] == Some(
                        self.pushed[turn as int],
                    ),
                    Phase::Taken { turn: claimed, item } => claimed == turn && item
                        == self.pushed[turn as int] && self.values[i] is None,
                    _ => false,
                }
            },
        }
    }

    /// What a thread saw was true when it saw it, and a thread that has claimed a turn owns the
    /// slot.
    pub open spec fn thread_is_sound(self, thread: int) -> bool {
        match self.phase(thread) {
            Phase::Idle => true,
            Phase::SawTail { tail, .. } => tail <= self.tail,
            Phase::MayWrite { tail, .. } => {
                &&& tail <= self.tail
                &&& tail == self.tail ==> self.owners[self.slot(tail)] == (Owner::Free {
                    turn: tail,
                })
            },
            Phase::Claimed { turn, .. } => self.owners[self.slot(turn)] == (Owner::Writing {
                turn,
                thread,
            }),
            Phase::Written { turn } => self.owners[self.slot(turn)] == (Owner::Writing {
                turn,
                thread,
            }),
            Phase::SawHead { head } => head <= self.head,
            Phase::MayRead { head } => {
                &&& head <= self.head
                &&& head == self.head ==> self.owners[self.slot(head)] == (Owner::Filled {
                    turn: head,
                })
            },
            Phase::Turned { turn } => self.owners[self.slot(turn)] == (Owner::Reading {
                turn,
                thread,
            }),
            Phase::Taken { turn, .. } => self.owners[self.slot(turn)] == (Owner::Reading {
                turn,
                thread,
            }),
        }
    }

    pub open spec fn inv(self) -> bool {
        &&& 0 < self.capacity < self.one_lap
        &&& self.stamps.len() == self.capacity
        &&& self.values.len() == self.capacity
        &&& self.owners.len() == self.capacity
        &&& self.head <= self.tail <= self.head + self.capacity
        &&& self.pushed.len() == self.tail
        &&& forall|i: int| 0 <= i < self.capacity ==> #[trigger] self.slot_is_sound(i)
        &&& forall|thread: int| #[trigger] self.thread_is_sound(thread)
    }
}

/// Two turns with the same position are the same, and no position is the one behind that of
/// another turn of the same slot.
proof fn lemma_positions<T>(m: Machine<T>, a: nat, b: nat)
    requires
        0 < m.capacity < m.one_lap,
    ensures
        0 <= m.slot(a) < m.capacity,
        m.position(a) == m.position(b) ==> a == b,
        m.slot(a) == m.slot(b) ==> m.position(a) + 1 != m.position(b),
        m.slot(a + m.capacity) == m.slot(a),
        m.position(a + m.capacity) == m.position(a) + m.one_lap,
{
    let n = m.capacity as int;
    let lap = m.one_lap;
    div_mod::lemma_fundamental_div_mod(a as int, n);
    div_mod::lemma_fundamental_div_mod(b as int, n);
    div_mod::lemma_fundamental_div_mod_converse(
        m.position(a),
        lap,
        a as int / n,
        a as int % n,
    );
    div_mod::lemma_fundamental_div_mod_converse(
        m.position(b),
        lap,
        b as int / n,
        b as int % n,
    );
    if m.slot(a) == m.slot(b) {
        div_mod::lemma_fundamental_div_mod_converse(
            m.position(a) + 1,
            lap,
            a as int / n,
            a as int % n + 1,
        );
    }
    let next = a as int / n + 1;
    assert(n * (a as int / n) + n == n * next) by (nonlinear_arith)
        requires
            next == a as int / n + 1,
    ;
    div_mod::lemma_fundamental_div_mod_converse(a + n, n, next, a as int % n);
    assert(next * lap == a as int / n * lap + lap) by (nonlinear_arith)
        requires
            next == a as int / n + 1,
    ;
}

/// The stamp of a slot that can be written, and of one that can be read, tells which turn it is.
proof fn lemma_stamps<T>(m: Machine<T>, turn: nat)
    requires
        m.inv(),
    ensures
        0 <= m.slot(turn) < m.capacity,
        m.stamps[m.slot(turn)] == m.position(turn) ==> (match m.owners[m.slot(turn)] {
            Owner::Free { turn: other } => other == turn,
            Owner::Writing { turn: other, .. } => other == turn,
            _ => false,
        }),
        m.stamps[m.slot(turn)] == m.position(turn) + 1 ==> (match m.owners[m.slot(turn)] {
            Owner::Filled { turn: other } => other == turn,
            Owner::Reading { turn: other, .. } => other == turn,
            _ => false,
        }),
{
    lemma_positions(m, turn, turn);
    let i = m.slot(turn);
    assert(m.slot_is_sound(i));
    match m.owners[i] {
        Owner::Free { turn: other } => {
            lemma_positions(m, other, turn);
            lemma_positions(m, turn, other);
        },
        Owner::Writing { turn: other, .. } => {
            lemma_positions(m, other, turn);
            lemma_positions(m, turn, other);
        },
        Owner::Filled { turn: other } => {
            lemma_positions(m, other, turn);
            lemma_positions(m, turn, other);
        },
        Owner::Reading { turn: other, .. } => {
            lemma_positions(m, other, turn);
            lemma_positions(m, turn, other);
        },
    }
}

/// Only the phase of one thread has changed, and that thread is sound.
proof fn lemma_phase_only<T>(m: Machine<T>, thread: int, phase: Phase<T>)
    requires
        m.inv(),
        !(m.phase(thread) is Claimed),
        !(m.phase(thread) is Written),
        !(m.phase(thread) is Turned),
        !(m.phase(thread) is Taken),
        m.with_phase(thread, phase).thread_is_sound(thread),
    ensures
        m.with_phase(thread, phase).inv(),
{
    let n = m.with_phase(thread, phase);
    assert forall|i: int| 0 <= i < n.capacity implies #[trigger] n.slot_is_sound(i) by {
        assert(m.slot_is_sound(i));
    }
    assert forall|other: int| #[trigger] n.thread_is_sound(other) by {
        assert(m.thread_is_sound(other));
    }
}

proof fn lemma_claim_tail<T>(m: Machine<T>, thread: int)
    requires
        m.inv(),
        m.enabled(Step::ClaimTail { thread }),
    ensures
        m.after(Step::ClaimTail { thread }).inv(),
{
    let n = m.after(Step::ClaimTail { thread });
    let turn = m.tail;
    assert(m.thread_is_sound(thread));
    lemma_stamps(m, turn);
    assert(m.slot_is_sound(m.slot(turn)));
    assert forall|i: int| 0 <= i < n.capacity implies #[trigger] n.slot_is_sound(i) by {
        assert(m.slot_is_sound(i));
        match m.owners[i] {
            Owner::Reading { turn: other, .. } => {
                if other + m.capacity == turn {
                    lemma_positions(m, other, turn);
                }
            },
            _ => {},
        }
    }
    assert forall|other: int| #[trigger] n.thread_is_sound(other) by {
        assert(m.thread_is_sound(other));
        match m.phase(other) {
            Phase::MayRead { head } => {
                lemma_positions(m, head, head);
            },
            _ => {},
        }
    }
}

proof fn lemma_put_item<T>(m: Machine<T>, thread: int)
    requires
        m.inv(),
        m.enabled(Step::PutItem { thread }),
    ensures
        m.after(Step::PutItem { thread }).inv(),
{
    let n = m.after(Step::PutItem { thread });
    assert(m.thread_is_sound(thread));
    if let Phase::Claimed { turn, .. } = m.phase(thread) {
        lemma_positions(m, turn, turn);
        assert(m.slot_is_sound(m.slot(turn)));
    }
    assert forall|i: int| 0 <= i < n.capacity implies #[trigger] n.slot_is_sound(i) by {
        assert(m.slot_is_sound(i));
    }
    assert forall|other: int| #[trigger] n.thread_is_sound(other) by {
        assert(m.thread_is_sound(other));
    }
}

proof fn lemma_publish<T>(m: Machine<T>, thread: int)
    requires
        m.inv(),
        m.enabled(Step::Publish { thread }),
    ensures
        m.after(Step::Publish { thread }).inv(),
{
    let n = m.after(Step::Publish { thread });
    assert(m.thread_is_sound(thread));
    if let Phase::Written { turn } = m.phase(thread) {
        lemma_positions(m, turn, turn);
        assert(m.slot_is_sound(m.slot(turn)));
    }
    assert forall|i: int| 0 <= i < n.capacity implies #[trigger] n.slot_is_sound(i) by {
        assert(m.slot_is_sound(i));
    }
    assert forall|other: int| #[trigger] n.thread_is_sound(other) by {
        assert(m.thread_is_sound(other));
    }
}

proof fn lemma_claim_head<T>(m: Machine<T>, thread: int)
    requires
        m.inv(),
        m.enabled(Step::ClaimHead { thread }),
    ensures
        m.after(Step::ClaimHead { thread }).inv(),
{
    let n = m.after(Step::ClaimHead { thread });
    let turn = m.head;
    assert(m.thread_is_sound(thread));
    lemma_stamps(m, turn);
    assert(m.slot_is_sound(m.slot(turn)));
    assert forall|i: int| 0 <= i < n.capacity implies #[trigger] n.slot_is_sound(i) by {
        assert(m.slot_is_sound(i));
    }
    assert forall|other: int| #[trigger] n.thread_is_sound(other) by {
        assert(m.thread_is_sound(other));
    }
}

proof fn lemma_take_item<T>(m: Machine<T>, thread: int)
    requires
        m.inv(),
        m.enabled(Step::TakeItem { thread }),
    ensures
        m.after(Step::TakeItem { thread }).inv(),
{
    let n = m.after(Step::TakeItem { thread });
    assert(m.thread_is_sound(thread));
    if let Phase::Turned { turn } = m.phase(thread) {
        lemma_positions(m, turn, turn);
        assert(m.slot_is_sound(m.slot(turn)));
    }
    assert forall|i: int| 0 <= i < n.capacity implies #[trigger] n.slot_is_sound(i) by {
        assert(m.slot_is_sound(i));
    }
    assert forall|other: int| #[trigger] n.thread_is_sound(other) by {
        assert(m.thread_is_sound(other));
    }
}

proof fn lemma_release<T>(m: Machine<T>, thread: int)
    requires
        m.inv(),
        m.enabled(Step::Release { thread }),
    ensures
        m.after(Step::Release { thread }).inv(),
{
    let n = m.after(Step::Release { thread });
    assert(m.thread_is_sound(thread));
    if let Phase::Taken { turn, .. } = m.phase(thread) {
        lemma_positions(m, turn, turn);
        assert(m.slot_is_sound(m.slot(turn)));
    }
    assert forall|i: int| 0 <= i < n.capacity implies #[trigger] n.slot_is_sound(i) by {
        assert(m.slot_is_sound(i));
    }
    assert forall|other: int| #[trigger] n.thread_is_sound(other) by {
        assert(m.thread_is_sound(other));
    }
}

/// The invariant holds of a queue that nobody has touched.
pub proof fn law_initially_sound<T>(capacity: nat, one_lap: int)
    requires
        0 < capacity < one_lap,
    ensures
        Machine::<T>::initial(capacity, one_lap).inv(),
{
    let m = Machine::<T>::initial(capacity, one_lap);
    assert forall|i: int| 0 <= i < m.capacity implies #[trigger] m.slot_is_sound(i) by {
        div_mod::lemma_small_mod(i as nat, capacity);
        div_mod::lemma_basic_div(i, capacity as int);
    }
}

/// Whatever step any thread takes, the invariant stays.
pub proof fn law_every_step_is_sound<T>(m: Machine<T>, n: Machine<T>)
    requires
        m.inv(),
        m.next(n),
    ensures
        n.inv(),
{
    let step = choose|step: Step<T>| #[trigger] m.enabled(step) && n == m.after(step);
    match step {
        Step::LookAtTail { thread, item } => {
            lemma_phase_only(m, thread, Phase::SawTail { item, tail: m.tail });
        },
        Step::LookAtTailAgain { thread } => {
            lemma_phase_only(m, thread, n.phase(thread));
        },
        Step::SeeFree { thread } => {
            assert(m.thread_is_sound(thread));
            if let Phase::SawTail { item, tail } = m.phase(thread) {
                lemma_stamps(m, tail);
                assert(m.slot_is_sound(m.slot(tail)));
                lemma_phase_only(m, thread, Phase::MayWrite { item, tail });
            }
        },
        Step::ClaimTail { thread } => {
            lemma_claim_tail(m, thread);
        },
        Step::PutItem { thread } => {
            lemma_put_item(m, thread);
        },
        Step::Publish { thread } => {
            lemma_publish(m, thread);
        },
        Step::SeeFull { thread } => {
            lemma_phase_only(m, thread, Phase::Idle);
        },
        Step::LookAtHead { thread } => {
            lemma_phase_only(m, thread, Phase::SawHead { head: m.head });
        },
        Step::LookAtHeadAgain { thread } => {
            lemma_phase_only(m, thread, Phase::SawHead { head: m.head });
        },
        Step::SeeFilled { thread } => {
            assert(m.thread_is_sound(thread));
            if let Phase::SawHead { head } = m.phase(thread) {
                lemma_stamps(m, head);
                assert(m.slot_is_sound(m.slot(head)));
                lemma_phase_only(m, thread, Phase::MayRead { head });
            }
        },
        Step::ClaimHead { thread } => {
            lemma_claim_head(m, thread);
        },
        Step::TakeItem { thread } => {
            lemma_take_item(m, thread);
        },
        Step::Release { thread } => {
            lemma_release(m, thread);
        },
        Step::SeeEmpty { thread } => {
            lemma_phase_only(m, thread, Phase::Idle);
        },
    }
}

/// Items come out in the order in which they went in, each of them once: the reader of a turn
/// takes the item that the writer of the same turn put in, and no two readers have the same turn.
pub proof fn law_items_come_out_in_order<T>(m: Machine<T>, thread: int, other: int)
    requires
        m.inv(),
    ensures
        m.phase(thread) matches Phase::Taken { turn, item } ==> turn < m.pushed.len() && item
            == m.pushed[turn as int],
        m.phase(thread) matches Phase::Taken { turn, .. } ==> (m.phase(other) matches Phase::Taken {
            turn: turn_of_other,
            ..
        } ==> turn == turn_of_other ==> thread == other),
{
    assert(m.thread_is_sound(thread));
    assert(m.thread_is_sound(other));
    if let Phase::Taken { turn, .. } = m.phase(thread) {
        lemma_positions(m, turn, turn);
        assert(m.slot_is_sound(m.slot(turn)));
    }
}

/// The slot that a thread has to itself.
pub open spec fn slot_in_use<T>(m: Machine<T>, thread: int) -> Option<int> {
    match m.phase(thread) {
        Phase::Claimed { turn, .. } => Some(m.slot(turn)),
        Phase::Written { turn } => Some(m.slot(turn)),
        Phase::Turned { turn } => Some(m.slot(turn)),
        Phase::Taken { turn, .. } => Some(m.slot(turn)),
        _ => None,
    }
}

/// No two threads are in the same slot at once, whether they write or read.
pub proof fn law_slots_are_exclusive<T>(m: Machine<T>, thread: int, other: int)
    requires
        m.inv(),
        thread != other,
        slot_in_use(m, thread) is Some,
    ensures
        slot_in_use(m, thread) != slot_in_use(m, other),
{
    assert(m.thread_is_sound(thread));
    assert(m.thread_is_sound(other));
}

/// A reader never finds its slot without an item, and a writer never overwrites one.
pub proof fn law_items_are_neither_missed_nor_overwritten<T>(m: Machine<T>, thread: int)
    requires
        m.inv(),
    ensures
        m.phase(thread) matches Phase::Turned { turn } ==> m.values[m.slot(turn)] is Some,
        m.phase(thread) matches Phase::Claimed { turn, .. } ==> m.values[m.slot(turn)] is None,
{
    assert(m.thread_is_sound(thread));
    match m.phase(thread) {
        Phase::Turned { turn } => {
            lemma_positions(m, turn, turn);
            assert(m.slot_is_sound(m.slot(turn)));
        },
        Phase::Claimed { turn, .. } => {
            lemma_positions(m, turn, turn);
            assert(m.slot_is_sound(m.slot(turn)));
        },
        _ => {},
    }
}

/// A writer gives up only if the item that was put into the slot at the tail one lap before was not
/// read to the end. If no thread is reading that item, the queue is full at that moment.
pub proof fn law_full_means_full<T>(m: Machine<T>, thread: int)
    requires
        m.inv(),
        m.enabled(Step::SeeFull { thread }),
    ensures
        m.phase(thread) matches Phase::SawTail { tail, .. } && tail == m.tail,
        match m.owners[m.slot(m.tail)] {
            Owner::Filled { turn } => turn + m.capacity == m.tail && m.tail == m.head + m.capacity,
            Owner::Reading { turn, .. } => turn + m.capacity == m.tail,
            _ => false,
        },
{
    let tail = match m.phase(thread) {
        Phase::SawTail { tail, .. } => tail,
        _ => m.tail,
    };
    let s = m.slot(tail);
    assert(m.thread_is_sound(thread));
    lemma_positions(m, tail, tail);
    assert(m.slot_is_sound(s));
    match m.owners[s] {
        Owner::Free { turn } => {
            lemma_positions(m, turn, turn);
            lemma_positions(m, tail, turn + m.capacity);
        },
        Owner::Writing { turn, .. } => {
            lemma_positions(m, turn, turn);
            lemma_positions(m, tail, turn + m.capacity);
        },
        Owner::Filled { turn } => {
            lemma_positions(m, turn, turn);
            lemma_positions(m, turn + m.capacity, tail);
        },
        Owner::Reading { turn, .. } => {
            lemma_positions(m, turn, turn);
            lemma_positions(m, turn + m.capacity, tail);
        },
    }
}

/// A reader gives up only if the queue is empty at that moment.
pub proof fn law_empty_means_empty<T>(m: Machine<T>, thread: int)
    requires
        m.inv(),
        m.enabled(Step::SeeEmpty { thread }),
    ensures
        m.head == m.tail,
{
    assert(m.thread_is_sound(thread));
}

} // verus!
