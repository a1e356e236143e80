//! The ring buffer as a state machine: its shared state, the progress of one
//! blocking call, and what one turn of a call does to both.

use crate::ring::RingView;
use vstd::prelude::*;

verus! {

/// How many values, or slots, a call that sleeps wants to find at a time.
pub const BLOCK_SIZE: usize = 5;

/// How many values, or slots, a call that spins wants to find at a time.
pub const SPIN_BLOCK_SIZE: usize = 1;

/// What a call does where the ring has nothing for it.
#[derive(Clone, Copy, PartialEq, Eq, Structural, Debug)]
pub enum Policy {
    /// It sleeps until another call has moved something.
    Sleep,
    /// It lets others run and looks again.
    Spin,
}

impl Policy {
    /// How many values, or slots, a call wants to find at a time; it waits only
    /// where it finds fewer.
    pub open spec fn block_size(self) -> int {
        match self {
            Policy::Sleep => BLOCK_SIZE as int,
            Policy::Spin => SPIN_BLOCK_SIZE as int,
        }
    }
}

/// How far a blocking call has come.
#[derive(Clone, Copy, PartialEq, Eq, Structural, Debug)]
pub enum Phase {
    /// It has yet to take the lock of its side.
    Locking,
    /// It holds the lock and looks at what it can move.
    Checking,
    /// It has left word that it sleeps.
    Parked,
    /// It was woken, and is content with what there is, however little.
    Resumed,
    /// It moves values, one a turn.
    Moving,
    /// It has made its moves known, and has yet to wake whoever waits for them.
    Signalling,
    /// It has moved everything and given the lock back.
    Finished,
}

/// What the caller does between one turn of a call and the next.
#[derive(Clone, Copy, PartialEq, Eq, Structural, Debug)]
pub enum Action {
    /// The lock belongs to another call: come back when it is free.
    Blocked,
    /// Come straight back.
    Continue,
    /// Let others run, then come back.
    Yield,
    /// Wake the named thread, then come back.
    Unpark(u64),
    /// Wake the named thread, let others run, then come back.
    Nudge(u64),
    /// Sleep until woken, then come back.
    Park,
    /// The call is over.
    Done,
}

/// What one turn of the waiting protocol asks for.
#[derive(Clone, Copy, PartialEq, Eq, Structural, Debug)]
pub enum WaitStep {
    /// Another thread is still registered: wake it, let others run and try again.
    Nudge(u64),
    /// This thread is registered: sleep until woken, then look again.
    Park,
    /// This thread was signalled and is registered no more.
    Resume,
}

pub open spec fn least(a: int, b: int) -> int {
    if a <= b {
        a
    } else {
        b
    }
}

/// The progress of a call that reads.
#[verifier::ext_equal]
pub struct ReadState<T> {
    /// The calling thread.
    pub me: u64,
    /// How many values the call is to return.
    pub to_read: nat,
    /// The values read so far.
    pub ret: Seq<T>,
    /// How many values had left the ring when the call took the lock.
    pub from: nat,
    /// How many values the call will have read when it next gives slots back.
    pub goal: nat,
    pub phase: Phase,
}

impl<T> ReadState<T> {
    /// A call by thread `me` to read `to_read` values, which has yet to start.
    pub open spec fn start(me: u64, to_read: nat) -> ReadState<T> {
        ReadState { me, to_read, ret: Seq::empty(), from: 0, goal: 0, phase: Phase::Locking }
    }

    /// A call by thread `me` that is over and has read `values`, before which
    /// `from` values had left the ring.
    pub open spec fn over(me: u64, values: Seq<T>, from: nat) -> ReadState<T> {
        ReadState {
            me,
            to_read: values.len(),
            ret: values,
            from,
            goal: values.len(),
            phase: Phase::Finished,
        }
    }

    /// How many values the call has still to read.
    pub open spec fn missing(self) -> int {
        self.to_read - self.ret.len()
    }

    /// With fewer values than this in the ring, the call waits.
    pub open spec fn need(self, policy: Policy) -> int {
        least(policy.block_size(), self.missing())
    }

    /// The call is between taking the lock and giving it back.
    pub open spec fn holding(self) -> bool {
        !(self.phase is Locking) && !(self.phase is Finished)
    }
}

/// The progress of a call that writes.
#[verifier::ext_equal]
pub struct WriteState<T> {
    /// The calling thread.
    pub me: u64,
    /// The values to write.
    pub buf: Seq<T>,
    /// How many of them have been written.
    pub have_write: nat,
    /// How many values had ever come into the ring when the call took the lock.
    pub from: nat,
    /// How many values the call will have written when it next shows them.
    pub goal: nat,
    pub phase: Phase,
}

impl<T> WriteState<T> {
    /// A call by thread `me` to write `buf`, which has yet to start.
    pub open spec fn start(me: u64, buf: Seq<T>) -> WriteState<T> {
        WriteState { me, buf, have_write: 0, from: 0, goal: 0, phase: Phase::Locking }
    }

    /// How many values the call has still to write.
    pub open spec fn missing(self) -> int {
        self.buf.len() - self.have_write
    }

    /// With fewer free slots than this in the ring, the call waits.
    pub open spec fn need(self, policy: Policy) -> int {
        least(policy.block_size(), self.missing())
    }

    /// The call is between taking the lock and giving it back.
    pub open spec fn holding(self) -> bool {
        !(self.phase is Locking) && !(self.phase is Finished)
    }
}

/// What the calls share.
#[verifier::ext_equal]
pub struct State<T> {
    pub ring: RingView<T>,
    /// How its calls wait.
    pub policy: Policy,
    /// The thread that sleeps, with `true` until it is signalled.
    pub waiting: Option<(bool, u64)>,
    /// The thread whose call reads.
    pub rlock: Option<u64>,
    /// The thread whose call writes.
    pub wlock: Option<u64>,
}

impl<T> State<T> {
    /// A new ring buffer, which nobody uses.
    pub open spec fn empty(capacity: nat, policy: Policy) -> State<T> {
        State {
            ring: RingView::empty(capacity),
            policy,
            waiting: None,
            rlock: None,
            wlock: None,
        }
    }

    /// The thread that is registered as asleep.
    pub open spec fn waiter(self) -> Option<u64> {
        match self.waiting {
            Some((_, thread)) => Some(thread),
            None => None,
        }
    }

    /// The state after the registered thread, if there is one, was signalled.
    pub open spec fn signalled(self) -> State<T> {
        match self.waiting {
            Some((_, thread)) => State { waiting: Some((false, thread)), ..self },
            None => self,
        }
    }

    /// One turn of the waiting protocol for thread `me`, which is asleep
    /// already (`parked`) or has yet to register.
    ///
    /// There is one place to register. A thread that finds it taken signals
    /// whoever is there. A thread that sleeps leaves the place when it finds
    /// itself signalled.
    pub open spec fn wait(self, me: u64, parked: bool) -> (State<T>, WaitStep) {
        match (self.waiting, parked) {
            (None, false) => (State { waiting: Some((true, me)), ..self }, WaitStep::Park),
            (Some((_, other)), false) => (self.signalled(), WaitStep::Nudge(other)),
            (Some((false, _)), true) => (State { waiting: None, ..self }, WaitStep::Resume),
            (_, true) => (self, WaitStep::Park),
        }
    }

    /// What the caller of a call does that has made its moves known.
    pub open spec fn wake(self) -> Action {
        match self.waiter() {
            Some(thread) => Action::Unpark(thread),
            None => Action::Continue,
        }
    }

    /// The call lacks the lock that it wants or needs.
    pub open spec fn read_blocked(self, call: ReadState<T>) -> bool {
        match call.phase {
            Phase::Locking => self.rlock is Some,
            Phase::Finished => false,
            _ => self.rlock != Some(call.me),
        }
    }

    /// One turn of a call that reads.
    ///
    /// Where there are too few values, the call waits as the policy has it; else
    /// it settles on how many it moves, moves them one by one, gives their
    /// slots back, signals, and looks again.
    ///
    /// A call that is to sleep registers in the turn in which it looked. Where
    /// the place is taken, it looks again before it next tries: what came in the
    /// meantime was signalled to the thread that was registered then, and to
    /// sleep now would be to miss it.
    pub open spec fn read_step(self, call: ReadState<T>) -> (State<T>, ReadState<T>, Action) {
        if self.read_blocked(call) {
            (self, call, Action::Blocked)
        } else {
            match call.phase {
                Phase::Locking => (
                    State { rlock: Some(call.me), ..self },
                    ReadState { from: self.ring.gone().len(), phase: Phase::Checking, ..call },
                    Action::Continue,
                ),
                Phase::Checking => if call.missing() <= 0 {
                    (
                        State { rlock: None, ..self },
                        ReadState { phase: Phase::Finished, ..call },
                        Action::Done,
                    )
                } else if self.ring.used() >= call.need(self.policy) {
                    (self, self.read_settled(call), Action::Continue)
                } else if self.policy is Spin {
                    (self, call, Action::Yield)
                } else {
                    let (after, step) = self.wait(call.me, false);
                    match step {
                        WaitStep::Nudge(other) => (after, call, Action::Nudge(other)),
                        _ => (after, ReadState { phase: Phase::Parked, ..call }, Action::Park),
                    }
                },
                Phase::Parked => {
                    let (after, step) = self.wait(call.me, true);
                    match step {
                        WaitStep::Resume => (
                            after,
                            ReadState { phase: Phase::Resumed, ..call },
                            Action::Continue,
                        ),
                        _ => (after, call, Action::Park),
                    }
                },
                Phase::Resumed => (self, self.read_settled(call), Action::Continue),
                Phase::Moving => if call.ret.len() < call.goal && self.ring.contents.len() > 0 {
                    (
                        State { ring: self.ring.after_take(1), ..self },
                        ReadState { ret: call.ret.push(self.ring.contents.first()), ..call },
                        Action::Continue,
                    )
                } else {
                    (
                        State { ring: self.ring.given_back(), ..self },
                        ReadState { phase: Phase::Signalling, ..call },
                        Action::Continue,
                    )
                },
                Phase::Signalling => (
                    self.signalled(),
                    ReadState { phase: Phase::Checking, ..call },
                    self.wake(),
                ),
                Phase::Finished => (self, call, Action::Done),
            }
        }
    }

    /// The call settles on moving as many values as there are and as it wants.
    pub open spec fn read_settled(self, call: ReadState<T>) -> ReadState<T> {
        let n = least(self.ring.used() as int, call.missing());
        ReadState { goal: (call.ret.len() + n) as nat, phase: Phase::Moving, ..call }
    }

    /// A read that never waits: what it returns, and the thread to wake.
    ///
    /// It returns nothing while another call reads.
    pub open spec fn try_read(self, amt: nat) -> (State<T>, Seq<T>, Option<u64>) {
        if self.rlock is Some || self.ring.contents.len() == 0 {
            (self, Seq::empty(), None)
        } else {
            let n = least(self.ring.contents.len() as int, amt as int);
            (
                State { ring: self.ring.after_take(n).given_back(), ..self.signalled() },
                self.ring.contents.take(n),
                self.waiter(),
            )
        }
    }

    /// The call lacks the lock that it wants or needs.
    pub open spec fn write_blocked(self, call: WriteState<T>) -> bool {
        match call.phase {
            Phase::Locking => call.buf.len() > 0 && self.wlock is Some,
            Phase::Finished => false,
            _ => self.wlock != Some(call.me),
        }
    }

    /// The next turn of the call puts a value into a slot.
    pub open spec fn puts(self, call: WriteState<T>) -> bool {
        &&& !self.write_blocked(call)
        &&& call.phase is Moving
        &&& call.have_write < call.goal
        &&& self.ring.coming.len() < self.ring.room()
    }

    /// One turn of a call that writes; where it puts a value in, that is `value`.
    ///
    /// Where there are too few free slots, the call waits as the policy has it;
    /// else it settles on how many it fills, fills them one by one, shows them,
    /// signals, and looks again.
    pub open spec fn write_step(self, call: WriteState<T>, value: T) -> (
        State<T>,
        WriteState<T>,
        Action,
    ) {
        if self.write_blocked(call) {
            (self, call, Action::Blocked)
        } else {
            match call.phase {
                Phase::Locking => {
                    let from = self.ring.stored().len();
                    if call.buf.len() == 0 {
                        (self, WriteState { from, phase: Phase::Finished, ..call }, Action::Done)
                    } else {
                        (
                            State { wlock: Some(call.me), ..self },
                            WriteState { from, phase: Phase::Checking, ..call },
                            Action::Continue,
                        )
                    }
                },
                Phase::Checking => if call.missing() <= 0 {
                    (
                        State { wlock: None, ..self },
                        WriteState { phase: Phase::Finished, ..call },
                        Action::Done,
                    )
                } else if self.ring.room() >= call.need(self.policy) {
                    (self, self.write_settled(call), Action::Continue)
                } else if self.policy is Spin {
                    (self, call, Action::Yield)
                } else {
                    let (after, step) = self.wait(call.me, false);
                    match step {
                        WaitStep::Nudge(other) => (after, call, Action::Nudge(other)),
                        _ => (after, WriteState { phase: Phase::Parked, ..call }, Action::Park),
                    }
                },
                Phase::Parked => {
                    let (after, step) = self.wait(call.me, true);
                    match step {
                        WaitStep::Resume => (
                            after,
                            WriteState { phase: Phase::Resumed, ..call },
                            Action::Continue,
                        ),
                        _ => (after, call, Action::Park),
                    }
                },
                Phase::Resumed => (self, self.write_settled(call), Action::Continue),
                Phase::Moving => if self.puts(call) {
                    (
                        State { ring: self.ring.after_put(value), ..self },
                        WriteState { have_write: call.have_write + 1, ..call },
                        Action::Continue,
                    )
                } else {
                    (
                        State { ring: self.ring.shown(), ..self },
                        WriteState { phase: Phase::Signalling, ..call },
                        Action::Continue,
                    )
                },
                Phase::Signalling => (
                    self.signalled(),
                    WriteState { phase: Phase::Checking, ..call },
                    self.wake(),
                ),
                Phase::Finished => (self, call, Action::Done),
            }
        }
    }

    /// The call settles on filling as many slots as there are and as it wants.
    pub open spec fn write_settled(self, call: WriteState<T>) -> WriteState<T> {
        let n = least(self.ring.room(), call.missing());
        WriteState { goal: (call.have_write + n) as nat, phase: Phase::Moving, ..call }
    }
}

} // verus!
