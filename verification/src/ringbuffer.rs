//! A ring buffer for many threads, whose calls go forward turn by turn.
//!
//! A call that moves values may have to wait, for a lock, for values or for
//! free slots. So it is an object of its own, and `read_full` and `write_full`
//! take it one turn forward: each turn changes the ring buffer and the call,
//! and names what the calling thread does before the next turn.

use crate::model::{
    Action, Phase, Policy, ReadState, State, WaitStep, WriteState, BLOCK_SIZE, SPIN_BLOCK_SIZE,
};
use crate::rawbuf::{slots_fit, RawBuf};
use crate::ring::Ring;
use vstd::prelude::*;

verus! {

/// A call of `read_full` under way.
pub struct ReadFull<T> {
    me: u64,
    to_read: usize,
    ret: Vec<T>,
    from: Ghost<nat>,
    goal: usize,
    phase: Phase,
}

impl<T> View for ReadFull<T> {
    type V = ReadState<T>;

    closed spec fn view(&self) -> ReadState<T> {
        ReadState {
            me: self.me,
            to_read: self.to_read as nat,
            ret: self.ret@,
            from: self.from@,
            goal: self.goal as nat,
            phase: self.phase,
        }
    }
}

impl<T> ReadFull<T> {
    /// The call neither has nor means to have more than it was asked for, and has
    /// all of it once it is over.
    pub closed spec fn wf(&self) -> bool {
        &&& self.ret@.len() <= self.to_read && self.goal <= self.to_read
        &&& self.phase is Finished ==> self.ret@.len() == self.to_read
    }

    /// A call never has more than it was asked for, and once it is over it has all.
    pub proof fn law_over_means_all_read(&self)
        requires
            self.wf(),
        ensures
            self@.ret.len() <= self@.to_read,
            self@.phase is Finished ==> self@.ret.len() == self@.to_read,
    {
    }

    /// A call by thread `me` to read `amt` values.
    pub fn new(me: u64, amt: usize) -> (call: ReadFull<T>)
        ensures
            call.wf(),
            call@ == ReadState::<T>::start(me, amt as nat),
            call@.me == me,
            call@.to_read == amt,
            call@.ret.len() == 0,
            call@.phase is Locking,
    {
        ReadFull {
            me,
            to_read: amt,
            ret: Vec::new(),
            from: Ghost(0),
            goal: 0,
            phase: Phase::Locking,
        }
    }

    /// What the call returns, once it is over.
    pub fn finish(self) -> (result: Result<Vec<T>, String>)
        requires
            self@.phase is Finished,
        ensures
            result is Ok,
            result->Ok_0@ == self@.ret,
            self.wf() ==> result->Ok_0@.len() == self@.to_read,
    {
        Ok(self.ret)
    }

    /// Puts what the call has read behind what is in `buf`, once the call is over.
    pub fn finish_into(self, buf: &mut Vec<T>) -> (result: Result<(), String>)
        requires
            self@.phase is Finished,
        ensures
            result is Ok,
            final(buf)@ == old(buf)@ + self@.ret,
            self.wf() ==> final(buf)@.len() == old(buf)@.len() + self@.to_read,
    {
        let mut ret = self.ret;
        buf.append(&mut ret);
        Ok(())
    }
}

/// A call of `write_full` under way.
pub struct WriteFull<'a, T> {
    me: u64,
    buf: &'a [T],
    have_write: usize,
    from: Ghost<nat>,
    goal: usize,
    phase: Phase,
}

impl<'a, T> View for WriteFull<'a, T> {
    type V = WriteState<T>;

    closed spec fn view(&self) -> WriteState<T> {
        WriteState {
            me: self.me,
            buf: self.buf@,
            have_write: self.have_write as nat,
            from: self.from@,
            goal: self.goal as nat,
            phase: self.phase,
        }
    }
}

impl<'a, T> WriteFull<'a, T> {
    /// The call neither has written nor means to write more than it was given, and
    /// has written all of it once it is over.
    pub closed spec fn wf(&self) -> bool {
        &&& self.have_write <= self.buf@.len() && self.goal <= self.buf@.len()
        &&& self.phase is Finished ==> self.have_write == self.buf@.len()
    }

    /// A call never writes more than it was given, and once it is over it has
    /// written all.
    pub proof fn law_over_means_all_written(&self)
        requires
            self.wf(),
        ensures
            self@.have_write <= self@.buf.len(),
            self@.phase is Finished ==> self@.have_write == self@.buf.len(),
    {
    }

    /// A call by thread `me` to write all of `buf`.
    pub fn new(me: u64, buf: &'a [T]) -> (call: WriteFull<'a, T>)
        ensures
            call.wf(),
            call@ == WriteState::start(me, buf@),
            call@.me == me,
            call@.buf == buf@,
            call@.have_write == 0,
            call@.phase is Locking,
    {
        WriteFull { me, buf, have_write: 0, from: Ghost(0), goal: 0, phase: Phase::Locking }
    }

    /// What the call returns, once it is over.
    pub fn finish(self) -> (result: Result<(), String>)
        requires
            self@.phase is Finished,
        ensures
            result is Ok,
    {
        Ok(())
    }
}

fn lesser(a: usize, b: usize) -> (least: usize)
    ensures
        least == crate::model::least(a as int, b as int),
{
    if a <= b {
        a
    } else {
        b
    }
}

fn block_size(policy: Policy) -> (size: usize)
    ensures
        size == policy.block_size(),
{
    match policy {
        Policy::Sleep => BLOCK_SIZE,
        Policy::Spin => SPIN_BLOCK_SIZE,
    }
}

/// A bounded FIFO that many threads write to and read from.
pub struct RingBuffer<T> {
    ring: Ring<T>,
    policy: Policy,
    waiting: Option<(bool, u64)>,
    rlock: Option<u64>,
    wlock: Option<u64>,
}

impl<T> View for RingBuffer<T> {
    type V = State<T>;

    closed spec fn view(&self) -> State<T> {
        State {
            ring: self.ring@,
            policy: self.policy,
            waiting: self.waiting,
            rlock: self.rlock,
            wlock: self.wlock,
        }
    }
}

impl<T: Clone> RingBuffer<T> {
    /// The ring is well formed.
    pub closed spec fn wf(&self) -> bool {
        self.ring.wf()
    }

    /// A ring buffer never holds more than its capacity, whatever is on its way;
    /// so there is never less than no room.
    pub proof fn law_within_capacity(&self)
        requires
            self.wf(),
        ensures
            self@.ring.used() + self@.ring.coming.len() <= self@.ring.capacity,
            self@.ring.room() >= 0,
    {
        self.ring.lemma_within_capacity();
    }

    /// Whether a ring buffer with room for `capacity` values can be had.
    pub fn fits(capacity: usize) -> (fits: bool)
        ensures
            fits == (capacity < usize::MAX && slots_fit::<T>(capacity + 1)),
    {
        capacity < usize::MAX && RawBuf::<T>::fits(capacity + 1)
    }

    /// An empty ring buffer with room for `capacity` values, whose calls sleep
    /// while it has nothing for them.
    pub fn new(capacity: usize) -> (ring: RingBuffer<T>)
        requires
            capacity < usize::MAX,
            slots_fit::<T>(capacity + 1),
        ensures
            ring.wf(),
            ring@ == State::<T>::empty(capacity as nat, Policy::Sleep),
            ring@.ring.capacity == capacity,
            ring@.ring.taken.len() == 0,
            ring@.ring.leaving.len() == 0,
            ring@.ring.contents.len() == 0,
            ring@.ring.coming.len() == 0,
            ring@.policy is Sleep,
            ring@.waiting is None,
            ring@.rlock is None,
            ring@.wlock is None,
    {
        RingBuffer {
            ring: Ring::new(capacity),
            policy: Policy::Sleep,
            waiting: None,
            rlock: None,
            wlock: None,
        }
    }

    /// An empty ring buffer with room for `capacity` values, whose calls keep
    /// looking while it has nothing for them.
    pub fn spinning(capacity: usize) -> (ring: RingBuffer<T>)
        requires
            capacity < usize::MAX,
            slots_fit::<T>(capacity + 1),
        ensures
            ring.wf(),
            ring@ == State::<T>::empty(capacity as nat, Policy::Spin),
            ring@.ring.capacity == capacity,
            ring@.ring.taken.len() == 0,
            ring@.ring.leaving.len() == 0,
            ring@.ring.contents.len() == 0,
            ring@.ring.coming.len() == 0,
            ring@.policy is Spin,
            ring@.waiting is None,
            ring@.rlock is None,
            ring@.wlock is None,
    {
        RingBuffer {
            ring: Ring::new(capacity),
            policy: Policy::Spin,
            waiting: None,
            rlock: None,
            wlock: None,
        }
    }

    /// How many slots lie between the cursors.
    pub fn used(&self) -> (used: usize)
        requires
            self.wf(),
        ensures
            used == self@.ring.used(),
            used == self@.ring.leaving.len() + self@.ring.contents.len(),
    {
        self.ring.used()
    }

    /// One turn of the waiting protocol for thread `me`, which sleeps already
    /// (`parked`) or has yet to register.
    ///
    /// The turns of `read_full` and `write_full` take these turns for their
    /// callers. What is proved of many threads in `system`, and rests on it,
    /// holds of ring buffers on which nothing else does: a thread that registers
    /// by hand has no call that sleeps.
    pub fn wait(&mut self, me: u64, parked: bool) -> (step: WaitStep)
        requires
            old(self).wf(),
        ensures
            final(self).wf(),
            (final(self)@, step) == old(self)@.wait(me, parked),
    {
        match self.waiting {
            None => {
                if !parked {
                    self.waiting = Some((true, me));
                }
                WaitStep::Park
            },
            Some((asleep, other)) => {
                if !parked {
                    self.waiting = Some((false, other));
                    WaitStep::Nudge(other)
                } else if !asleep {
                    self.waiting = None;
                    WaitStep::Resume
                } else {
                    WaitStep::Park
                }
            },
        }
    }

    /// How many slots there are to read from for a call that wants `amt`, or
    /// `None` where it has to wait first. A call that has waited is content with
    /// what there is.
    pub fn wait_used(&self, amt: usize, waited: bool) -> (used: Option<usize>)
        requires
            self.wf(),
        ensures
            used is Some <==> waited || self@.ring.used() >= amt,
            used is Some ==> used->0 == self@.ring.used(),
            used is Some <==> waited || self@.ring.leaving.len() + self@.ring.contents.len() >= amt,
            used is Some ==> used->0 == self@.ring.leaving.len() + self@.ring.contents.len(),
    {
        let used: usize = self.used();
        if !waited && used < amt {
            None
        } else {
            Some(used)
        }
    }

    /// How many free slots there are for a call that wants `amt`, or `None`
    /// where it has to wait first. A call that has waited is content with what
    /// there is.
    pub fn wait_free(&self, amt: usize, waited: bool) -> (free: Option<usize>)
        requires
            self.wf(),
        ensures
            free is Some <==> waited || self@.ring.room() >= amt,
            free is Some ==> free->0 == self@.ring.room(),
            free is Some <==> waited || self@.ring.leaving.len() + self@.ring.contents.len() + amt
                <= self@.ring.capacity,
            free is Some ==> free->0 + self@.ring.leaving.len() + self@.ring.contents.len()
                == self@.ring.capacity,
    {
        let free: usize = self.ring.free();
        if !waited && free < amt {
            None
        } else {
            Some(free)
        }
    }

    /// Signals the thread that is registered as asleep, and names it so that it
    /// can be woken.
    ///
    /// The turns of `read_full` and `write_full`, and `read`, do this for their
    /// callers, as with `wait`.
    pub fn unpark_thread(&mut self) -> (thread: Option<u64>)
        requires
            old(self).wf(),
        ensures
            final(self).wf(),
            thread == old(self)@.waiter(),
            final(self)@ == old(self)@.signalled(),
            thread is Some <==> old(self)@.waiting is Some,
            thread is Some ==> thread->0 == (old(self)@.waiting->0).1,
            thread is Some ==> final(self)@.waiting == Some((false, thread->0)),
            thread is None ==> final(self)@ == old(self)@,
    {
        match self.waiting {
            None => None,
            Some((_, thread)) => {
                self.waiting = Some((false, thread));
                Some(thread)
            },
        }
    }

    fn wake(&mut self) -> (action: Action)
        requires
            old(self).wf(),
        ensures
            final(self).wf(),
            action == old(self)@.wake(),
            final(self)@ == old(self)@.signalled(),
    {
        match self.unpark_thread() {
            None => Action::Continue,
            Some(thread) => Action::Unpark(thread),
        }
    }

    /// One turn of `call`, which reads as many values as it was asked for, the
    /// oldest first, and keeps every other reader out until it has them.
    pub fn read_full(&mut self, call: &mut ReadFull<T>) -> (action: Action)
        requires
            old(self).wf(),
            old(call).wf(),
        ensures
            final(self).wf(),
            final(call).wf(),
            (final(self)@, final(call)@, action) == old(self)@.read_step(old(call)@),
            action is Done <==> final(call)@.phase is Finished,
            action is Done ==> final(call)@.ret.len() == final(call)@.to_read,
            final(call)@.to_read == old(call)@.to_read,
    {
        match call.phase {
            Phase::Finished => {
                return Action::Done;
            },
            Phase::Locking => {
                if self.rlock.is_some() {
                    return Action::Blocked;
                }
                self.rlock = Some(call.me);
                call.from = Ghost(self@.ring.gone().len());
                call.phase = Phase::Checking;
                return Action::Continue;
            },
            _ => {
                if self.rlock != Some(call.me) {
                    return Action::Blocked;
                }
            },
        }
        match call.phase {
            Phase::Parked => match self.wait(call.me, true) {
                WaitStep::Resume => {
                    call.phase = Phase::Resumed;
                    Action::Continue
                },
                _ => Action::Park,
            },
            Phase::Moving => {
                if call.ret.len() < call.goal && self.ring.readable() > 0 {
                    call.ret.push(self.ring.take());
                } else {
                    self.ring.give_back();
                    call.phase = Phase::Signalling;
                }
                Action::Continue
            },
            Phase::Signalling => {
                call.phase = Phase::Checking;
                self.wake()
            },
            _ => {
                let waited = call.phase == Phase::Resumed;
                let missing: usize = call.to_read - call.ret.len();
                if !waited && missing == 0 {
                    self.rlock = None;
                    call.phase = Phase::Finished;
                    return Action::Done;
                }
                match self.wait_used(lesser(block_size(self.policy), missing), waited) {
                    Some(used) => {
                        call.goal = call.ret.len() + lesser(used, missing);
                        call.phase = Phase::Moving;
                        Action::Continue
                    },
                    None => match self.policy {
                        Policy::Spin => Action::Yield,
                        Policy::Sleep => match self.wait(call.me, false) {
                            WaitStep::Nudge(other) => Action::Nudge(other),
                            _ => {
                                call.phase = Phase::Parked;
                                Action::Park
                            },
                        },
                    },
                }
            },
        }
    }

    /// Reads up to `amt` values without waiting, the oldest first, and names the
    /// thread to wake. Reads nothing while another call reads.
    pub fn read(&mut self, amt: usize) -> (result: (Result<Vec<T>, String>, Option<u64>))
        requires
            old(self).wf(),
        ensures
            final(self).wf(),
            result.0 is Ok,
            (final(self)@, result.0->Ok_0@, result.1) == old(self)@.try_read(amt as nat),
            result.0->Ok_0@ + final(self)@.ring.contents == old(self)@.ring.contents,
            result.0->Ok_0@.len() <= amt,
            old(self)@.rlock is None && result.0->Ok_0@.len() < amt
                ==> final(self)@.ring.contents.len() == 0,
            old(self)@.rlock is Some ==> result.0->Ok_0@.len() == 0,
            result.1 is Some <==> old(self)@.rlock is None && old(self)@.ring.contents.len() > 0
                && old(self)@.waiting is Some,
            result.1 is Some ==> result.1->0 == (old(self)@.waiting->0).1,
    {
        let mut ret: Vec<T> = Vec::new();
        if self.rlock.is_some() {
            return (Ok(ret), None);
        }
        let used: usize = self.ring.readable();
        if used == 0 {
            return (Ok(ret), None);
        }
        let readable: usize = lesser(used, amt);
        assert(self.ring@ =~= old(self).ring@.after_take(0));
        while ret.len() < readable
            invariant
                old(self).wf(),
                self.wf(),
                ret@.len() <= readable <= old(self)@.ring.contents.len(),
                ret@ == old(self)@.ring.contents.take(ret@.len() as int),
                self@ == (State {
                    ring: old(self)@.ring.after_take(ret@.len() as int),
                    ..old(self)@
                }),
            decreases readable - ret.len(),
        {
            let ghost n = ret@.len() as int;
            ret.push(self.ring.take());
            assert(ret@ =~= old(self)@.ring.contents.take(n + 1));
            assert(self.ring@ =~= old(self)@.ring.after_take(n + 1));
        }
        self.ring.give_back();
        let thread = self.unpark_thread();
        (Ok(ret), thread)
    }

    /// One turn of `call`, which writes clones of the values that it was given,
    /// in their order, and keeps every other writer out until it has written all.
    pub fn write_full(&mut self, call: &mut WriteFull<T>) -> (action: Action)
        requires
            old(self).wf(),
            old(call).wf(),
        ensures
            final(self).wf(),
            final(call).wf(),
            ({
                let value = final(self)@.ring.coming.last();
                &&& old(self)@.puts(old(call)@) ==> cloned(
                    old(call)@.buf[old(call)@.have_write as int],
                    value,
                )
                &&& (final(self)@, final(call)@, action) == old(self)@.write_step(
                    old(call)@,
                    value,
                )
            }),
            action is Done <==> final(call)@.phase is Finished,
            action is Done ==> final(call)@.have_write == final(call)@.buf.len(),
            final(call)@.buf == old(call)@.buf,
            final(call)@.have_write != old(call)@.have_write ==> {
                &&& final(call)@.have_write == old(call)@.have_write + 1
                &&& final(self)@.ring.coming.len() == old(self)@.ring.coming.len() + 1
                &&& final(self)@.ring.coming.drop_last() == old(self)@.ring.coming
                &&& cloned(
                    old(call)@.buf[old(call)@.have_write as int],
                    final(self)@.ring.coming.last(),
                )
            },
    {
        proof {
            self.law_within_capacity();
        }
        match call.phase {
            Phase::Finished => {
                return Action::Done;
            },
            Phase::Locking => {
                let empty = call.buf.len() == 0;
                if !empty && self.wlock.is_some() {
                    return Action::Blocked;
                }
                call.from = Ghost(self@.ring.stored().len());
                if empty {
                    call.phase = Phase::Finished;
                    return Action::Done;
                }
                self.wlock = Some(call.me);
                call.phase = Phase::Checking;
                return Action::Continue;
            },
            _ => {
                if self.wlock != Some(call.me) {
                    return Action::Blocked;
                }
            },
        }
        match call.phase {
            Phase::Parked => match self.wait(call.me, true) {
                WaitStep::Resume => {
                    call.phase = Phase::Resumed;
                    Action::Continue
                },
                _ => Action::Park,
            },
            Phase::Moving => {
                if call.have_write < call.goal && self.ring.has_room() {
                    self.ring.put(call.buf[call.have_write].clone());
                    call.have_write += 1;
                } else {
                    self.ring.show();
                    call.phase = Phase::Signalling;
                }
                Action::Continue
            },
            Phase::Signalling => {
                call.phase = Phase::Checking;
                self.wake()
            },
            _ => {
                let waited = call.phase == Phase::Resumed;
                let missing: usize = call.buf.len() - call.have_write;
                if !waited && missing == 0 {
                    self.wlock = None;
                    call.phase = Phase::Finished;
                    return Action::Done;
                }
                match self.wait_free(lesser(block_size(self.policy), missing), waited) {
                    Some(free) => {
                        call.goal = call.have_write + lesser(free, missing);
                        call.phase = Phase::Moving;
                        Action::Continue
                    },
                    None => match self.policy {
                        Policy::Spin => Action::Yield,
                        Policy::Sleep => match self.wait(call.me, false) {
                            WaitStep::Nudge(other) => Action::Nudge(other),
                            _ => {
                                call.phase = Phase::Parked;
                                Action::Park
                            },
                        },
                    },
                }
            },
        }
    }
}

} // verus!
