//! What one turn does, said in terms of what it finds and what it leaves.
//!
//! Each law holds of every state and every call, reachable or not.

use crate::model::{least, Action, Phase, Policy, ReadState, State, WaitStep, WriteState};
use crate::ring::RingView;
use vstd::prelude::*;

verus! {

/// The least of two numbers is one of them, and neither is less.
pub proof fn law_least(a: int, b: int)
    ensures
        least(a, b) <= a,
        least(a, b) <= b,
        least(a, b) == a || least(a, b) == b,
{
}

/// Calls that sleep want five at a time, calls that spin want one.
pub proof fn law_block_size(policy: Policy)
    ensures
        policy is Sleep ==> policy.block_size() == 5,
        policy is Spin ==> policy.block_size() == 1,
{
}

/// A new ring buffer is empty, has the capacity and the way of waiting that were
/// asked for, and is used by nobody.
pub proof fn law_new_ring_is_empty<T>(capacity: nat, policy: Policy)
    ensures
        ({
            let state = State::<T>::empty(capacity, policy);
            &&& state.ring.capacity == capacity
            &&& state.ring.taken.len() == 0
            &&& state.ring.leaving.len() == 0
            &&& state.ring.contents.len() == 0
            &&& state.ring.coming.len() == 0
            &&& state.policy == policy
            &&& state.waiting is None
            &&& state.rlock is None
            &&& state.wlock is None
        }),
{
}

/// A call that reads starts with nothing, and is to read what it was asked for.
pub proof fn law_read_starts_with_request<T>(me: u64, amt: nat)
    ensures
        ({
            let call = ReadState::<T>::start(me, amt);
            &&& call.me == me
            &&& call.to_read == amt
            &&& call.ret.len() == 0
            &&& call.phase is Locking
        }),
{
}

/// A call that writes starts with all that it was given, as it was given, and
/// has written none of it.
pub proof fn law_write_starts_with_request<T>(me: u64, values: Seq<T>)
    ensures
        ({
            let call = WriteState::start(me, values);
            &&& call.me == me
            &&& call.buf == values
            &&& call.have_write == 0
            &&& call.phase is Locking
        }),
{
}

/// Slots count as used as long as they are not given back, and every slot that
/// does not is room.
pub proof fn law_room_is_what_is_not_used<T>(ring: RingView<T>)
    ensures
        ring.used() == ring.leaving.len() + ring.contents.len(),
        ring.room() + ring.leaving.len() + ring.contents.len() == ring.capacity,
{
}

/// The streams are made of all that is, or was, in the ring, the oldest first.
pub proof fn law_streams_are_made_of_parts<T>(ring: RingView<T>)
    ensures
        ring.gone() == ring.taken + ring.leaving,
        ring.stored() == ring.taken + ring.leaving + ring.contents + ring.coming,
{
}

/// The thread to wake is the one that is registered, signalled or not; after the
/// signal it is still registered, and nothing else has changed.
pub proof fn law_signal_names_the_registered<T>(state: State<T>)
    ensures
        ({
            let after = state.signalled();
            &&& state.waiting is None ==> state.waiter() is None && after == state
            &&& state.waiting is Some ==> {
                let thread = (state.waiting->0).1;
                &&& state.waiter() == Some(thread)
                &&& after.waiting == Some((false, thread))
                &&& state.wake() == Action::Unpark(thread)
            }
            &&& state.waiting is None ==> state.wake() == Action::Continue
            &&& after.ring == state.ring
            &&& after.policy == state.policy
            &&& after.rlock == state.rlock
            &&& after.wlock == state.wlock
        }),
{
}

/// There is one place to wait. A thread that finds it free is registered there,
/// unsignalled, under its own name; one that finds it taken signals whoever is
/// there; and one that sleeps leaves it once it is signalled, and not before.
pub proof fn law_one_place_to_wait<T>(state: State<T>, me: u64, parked: bool)
    ensures
        ({
            let (after, step) = state.wait(me, parked);
            &&& after.ring == state.ring
            &&& after.policy == state.policy
            &&& after.rlock == state.rlock
            &&& after.wlock == state.wlock
            &&& !parked && state.waiting is None ==> step == WaitStep::Park && after.waiting
                == Some((true, me))
            &&& !parked && state.waiting is Some ==> step == WaitStep::Nudge((state.waiting->0).1)
                && after.waiting == Some((false, (state.waiting->0).1))
            &&& parked && state.waiting is Some && !(state.waiting->0).0 ==> step
                == WaitStep::Resume && after.waiting is None
            &&& parked && (state.waiting is None || (state.waiting->0).0) ==> step == WaitStep::Park
                && after.waiting == state.waiting
        }),
{
}

/// A read that does not wait takes nothing and changes nothing while another
/// call reads, or where there is nothing.
pub proof fn law_read_gives_way<T>(state: State<T>, amt: nat)
    requires
        state.rlock is Some || state.ring.contents.len() == 0,
    ensures
        ({
            let (after, values, thread) = state.try_read(amt);
            &&& after == state
            &&& values.len() == 0
            &&& thread is None
        }),
{
}

/// A read that does not wait returns as much as it was asked for, or leaves
/// nothing: the oldest values, in their order, and no more. Their slots are given
/// back, and nothing that is on its way in is touched.
pub proof fn law_read_returns_all_it_can<T>(state: State<T>, amt: nat)
    requires
        state.rlock is None,
    ensures
        ({
            let (after, values, _) = state.try_read(amt);
            &&& values.len() <= amt
            &&& values.len() < amt ==> after.ring.contents.len() == 0
            &&& values + after.ring.contents == state.ring.contents
            &&& state.ring.contents.len() > 0 ==> after.ring.leaving.len() == 0 && after.ring.taken
                == state.ring.taken + state.ring.leaving + values
            &&& after.ring.coming == state.ring.coming
            &&& after.ring.capacity == state.ring.capacity
            &&& after.policy == state.policy
            &&& after.rlock is None
            &&& after.wlock == state.wlock
        }),
{
    let (after, values, _) = state.try_read(amt);
    assert(values + after.ring.contents =~= state.ring.contents);
    assert(state.ring.contents.len() > 0 ==> after.ring.taken =~= state.ring.taken
        + state.ring.leaving + values);
}

/// A read that does not wait, and finds values, signals whoever is registered
/// and names that thread to its caller.
pub proof fn law_read_names_the_sleeper<T>(state: State<T>, amt: nat)
    requires
        state.rlock is None,
        state.ring.contents.len() > 0,
    ensures
        ({
            let (after, _, thread) = state.try_read(amt);
            &&& state.waiting is None ==> thread is None && after.waiting is None
            &&& state.waiting is Some ==> thread == Some((state.waiting->0).1) && after.waiting
                == Some((false, (state.waiting->0).1))
        }),
{
}

/// A turn of a call that reads changes neither who reads nor how much is to be
/// read, nor anything of the writing side.
pub proof fn law_read_turn_keeps_its_terms<T>(state: State<T>, call: ReadState<T>)
    ensures
        ({
            let (after, next, action) = state.read_step(call);
            &&& next.me == call.me
            &&& next.to_read == call.to_read
            &&& after.policy == state.policy
            &&& after.wlock == state.wlock
            &&& after.ring.capacity == state.ring.capacity
            &&& after.ring.coming == state.ring.coming
            &&& next.from != call.from ==> call.phase is Locking
        }),
{
}

/// A turn is refused exactly where the call wants the lock and it is taken, or
/// needs it and has it not; then nothing changes.
pub proof fn law_read_turn_is_blocked_by_the_lock<T>(state: State<T>, call: ReadState<T>)
    ensures
        ({
            let (after, next, action) = state.read_step(call);
            &&& action is Blocked <==> (call.phase is Locking && state.rlock is Some) || (
                !(call.phase is Locking) && !(call.phase is Finished) && state.rlock != Some(
                    call.me,
                ))
            &&& action is Blocked ==> after == state && next == call
        }),
{
}

/// A call takes the lock where it is free, and notes how many values had left.
pub proof fn law_read_turn_takes_the_lock<T>(state: State<T>, call: ReadState<T>)
    requires
        call.phase is Locking,
        state.rlock is None,
    ensures
        ({
            let (after, next, action) = state.read_step(call);
            &&& next.phase is Checking
            &&& after == (State { rlock: Some(call.me), ..state })
            &&& next.from == state.ring.taken.len() + state.ring.leaving.len()
            &&& next.ret == call.ret
            &&& next.goal == call.goal
            &&& action is Continue
        }),
{
}

/// A turn says that the call is over exactly where it is: the lock is given
/// back, and no value that was asked for is missing.
pub proof fn law_read_turn_says_done_at_the_end<T>(state: State<T>, call: ReadState<T>)
    ensures
        ({
            let (after, next, action) = state.read_step(call);
            &&& action is Done <==> next.phase is Finished
            &&& action is Done && !(call.phase is Finished) ==> {
                &&& call.ret.len() >= call.to_read
                &&& state.rlock == Some(call.me)
                &&& after == (State { rlock: None, ..state })
                &&& next.ret == call.ret
            }
            &&& call.phase is Checking && state.rlock == Some(call.me) && call.ret.len()
                >= call.to_read ==> action is Done
            &&& call.phase is Finished ==> after == state && next == call && action is Done
        }),
{
}

/// The lock changes hands only where the call takes it and where it is over.
pub proof fn law_read_turn_keeps_the_lock_to_the_end<T>(state: State<T>, call: ReadState<T>)
    ensures
        ({
            let (after, next, action) = state.read_step(call);
            &&& after.rlock != state.rlock ==> call.phase is Locking || action is Done
            &&& !(next.phase is Locking) && !(next.phase is Finished) && !(action is Blocked)
                ==> after.rlock == Some(call.me)
        }),
{
}

/// A call waits exactly where there are fewer values than it is missing, and
/// fewer than it wants at a time: it lets others run, signals whoever is
/// registered, or registers itself. It has moved nothing then.
pub proof fn law_read_turn_waits_for_too_little<T>(state: State<T>, call: ReadState<T>)
    requires
        call.phase is Checking,
        state.rlock == Some(call.me),
    ensures
        ({
            let (after, next, action) = state.read_step(call);
            let block: int = if state.policy is Sleep {
                5
            } else {
                1
            };
            let there = (state.ring.leaving.len() + state.ring.contents.len()) as int;
            let missing = call.to_read - call.ret.len();
            let waits = missing > 0 && there < block && there < missing;
            &&& action is Yield <==> waits && state.policy is Spin
            &&& action is Yield ==> after == state && next == call
            &&& waits && state.policy is Sleep ==> {
                &&& state.waiting is None ==> action is Park && next == (ReadState {
                    phase: Phase::Parked,
                    ..call
                }) && after == (State { waiting: Some((true, call.me)), ..state })
                &&& state.waiting is Some ==> action == Action::Nudge((state.waiting->0).1) && next
                    == call && after == (State {
                    waiting: Some((false, (state.waiting->0).1)),
                    ..state
                })
            }
            &&& missing > 0 && !waits ==> next.phase is Moving && action is Continue
        }),
{
}

/// A call that need not wait, or has waited, settles on moving all the values
/// that there are, or all that it is missing, whichever are fewer.
pub proof fn law_read_turn_settles_on_all_it_can<T>(state: State<T>, call: ReadState<T>)
    requires
        state.rlock == Some(call.me),
        call.ret.len() <= call.to_read,
        call.phase is Resumed || (call.phase is Checking && {
            let block: int = if state.policy is Sleep {
                5
            } else {
                1
            };
            let there = (state.ring.leaving.len() + state.ring.contents.len()) as int;
            let missing = call.to_read - call.ret.len();
            missing > 0 && (there >= block || there >= missing)
        }),
    ensures
        ({
            let (after, next, action) = state.read_step(call);
            let there = (state.ring.leaving.len() + state.ring.contents.len()) as int;
            let missing = call.to_read - call.ret.len();
            &&& after == state
            &&& action is Continue
            &&& next.phase is Moving
            &&& next.ret == call.ret
            &&& call.ret.len() <= next.goal <= call.to_read
            &&& next.goal - call.ret.len() <= there
            &&& next.goal == call.to_read || next.goal - call.ret.len() == there
        }),
{
}

/// A call that sleeps sleeps on until it is signalled; then it leaves the place
/// and is content with what there is.
pub proof fn law_read_turn_sleeps_until_signalled<T>(state: State<T>, call: ReadState<T>)
    requires
        call.phase is Parked,
        state.rlock == Some(call.me),
    ensures
        ({
            let (after, next, action) = state.read_step(call);
            let signalled = state.waiting is Some && !(state.waiting->0).0;
            &&& !signalled ==> after == state && next == call && action is Park
            &&& signalled ==> {
                &&& after == (State { waiting: None, ..state })
                &&& next == (ReadState { phase: Phase::Resumed, ..call })
                &&& action is Continue
            }
        }),
{
}

/// A turn asks for sleep exactly where the call is one that sleeps.
pub proof fn law_read_turn_sleeps_only_when_registered<T>(state: State<T>, call: ReadState<T>)
    ensures
        ({
            let (after, next, action) = state.read_step(call);
            action is Park <==> next.phase is Parked && !(action is Blocked)
        }),
{
}

/// What a call reads is what leaves the ring, the oldest value first: nothing is
/// lost, nothing comes twice, and one value at most moves in a turn.
pub proof fn law_read_turn_moves_the_oldest<T>(state: State<T>, call: ReadState<T>)
    ensures
        ({
            let (after, next, action) = state.read_step(call);
            let moved = next.ret.skip(call.ret.len() as int);
            &&& call.ret.is_prefix_of(next.ret)
            &&& moved.len() <= 1
            &&& moved + after.ring.contents == state.ring.contents
            &&& after.ring.taken + after.ring.leaving == state.ring.taken + state.ring.leaving
                + moved
            &&& moved.len() == 1 <==> call.phase is Moving && state.rlock == Some(call.me)
                && call.ret.len() < call.goal && state.ring.contents.len() > 0
            &&& moved.len() == 1 ==> next.phase is Moving && next.goal == call.goal && after.waiting
                == state.waiting && after.ring.taken == state.ring.taken && action is Continue
        }),
{
    let (after, next, action) = state.read_step(call);
    let moved = next.ret.skip(call.ret.len() as int);
    if next.ret.len() > call.ret.len() {
        assert(moved =~= seq![state.ring.contents.first()]);
        assert(state.ring.contents.take(1) =~= moved);
    } else {
        assert(next.ret == call.ret);
        assert(moved =~= Seq::empty());
    }
    assert(moved + after.ring.contents =~= state.ring.contents);
    assert(after.ring.taken + after.ring.leaving =~= state.ring.taken + state.ring.leaving + moved);
}

/// A call gives back the slots that it has emptied, all of them, once it has
/// what it settled on, and at no other time; then it signals.
pub proof fn law_read_turn_gives_slots_back_at_the_goal<T>(state: State<T>, call: ReadState<T>)
    ensures
        ({
            let (after, next, action) = state.read_step(call);
            let gives = call.phase is Moving && state.rlock == Some(call.me) && (call.ret.len()
                >= call.goal || state.ring.contents.len() == 0);
            &&& gives ==> after.ring.leaving.len() == 0 && after.ring.taken == state.ring.taken
                + state.ring.leaving && after.ring.contents == state.ring.contents && next.ret
                == call.ret && after.waiting == state.waiting && action is Continue
            &&& gives <==> next.phase is Signalling && !(action is Blocked)
            &&& !gives ==> after.ring.taken == state.ring.taken
        }),
{
}

/// A call that has made its moves known signals whoever is registered, and has
/// that thread woken; then it looks again.
pub proof fn law_read_turn_signals_what_it_moved<T>(state: State<T>, call: ReadState<T>)
    requires
        call.phase is Signalling,
        state.rlock == Some(call.me),
    ensures
        ({
            let (after, next, action) = state.read_step(call);
            &&& next == (ReadState { phase: Phase::Checking, ..call })
            &&& state.waiting is None ==> action is Continue && after == state
            &&& state.waiting is Some ==> action == Action::Unpark((state.waiting->0).1) && after
                == (State { waiting: Some((false, (state.waiting->0).1)), ..state })
        }),
{
}

/// Whoever is signalled is named to the caller, nobody else is, and nobody who
/// sleeps is struck off unsignalled.
pub proof fn law_read_turn_names_whom_it_signals<T>(state: State<T>, call: ReadState<T>)
    ensures
        ({
            let (after, next, action) = state.read_step(call);
            &&& state.waiting is Some && (state.waiting->0).0 ==> {
                let thread = (state.waiting->0).1;
                ||| after.waiting == state.waiting
                ||| after.waiting == Some((false, thread)) && (action == Action::Unpark(thread)
                    || action == Action::Nudge(thread))
            }
            &&& action is Unpark || action is Nudge ==> state.waiting is Some && after.waiting
                == Some((false, (state.waiting->0).1))
            &&& action is Unpark ==> action->Unpark_0 == (state.waiting->0).1
                && call.phase is Signalling
            &&& action is Nudge ==> action->Nudge_0 == (state.waiting->0).1
                && call.phase is Checking
            &&& after.waiting is Some && (after.waiting->0).0 && after.waiting != state.waiting
                ==> (after.waiting->0).1 == call.me && action is Park
        }),
{
}

/// A turn of a call that writes changes neither who writes nor what is to be
/// written, nor anything of the reading side but what there is to be read.
pub proof fn law_write_turn_keeps_its_terms<T>(state: State<T>, call: WriteState<T>, value: T)
    ensures
        ({
            let (after, next, action) = state.write_step(call, value);
            &&& next.me == call.me
            &&& next.buf == call.buf
            &&& after.policy == state.policy
            &&& after.rlock == state.rlock
            &&& after.ring.capacity == state.ring.capacity
            &&& after.ring.taken == state.ring.taken
            &&& after.ring.leaving == state.ring.leaving
            &&& next.from != call.from ==> call.phase is Locking
        }),
{
}

/// A turn is refused exactly where the call wants the lock and it is taken, or
/// needs it and has it not; then nothing changes.
pub proof fn law_write_turn_is_blocked_by_the_lock<T>(
    state: State<T>,
    call: WriteState<T>,
    value: T,
)
    ensures
        ({
            let (after, next, action) = state.write_step(call, value);
            &&& action is Blocked <==> (call.phase is Locking && call.buf.len() > 0
                && state.wlock is Some) || (!(call.phase is Locking) && !(call.phase is Finished)
                && state.wlock != Some(call.me))
            &&& action is Blocked ==> after == state && next == call
        }),
{
}

/// A call takes the lock where it is free, and notes how many values had come;
/// one that has nothing to write is over without it.
pub proof fn law_write_turn_takes_the_lock<T>(state: State<T>, call: WriteState<T>, value: T)
    requires
        call.phase is Locking,
        call.buf.len() == 0 || state.wlock is None,
    ensures
        ({
            let (after, next, action) = state.write_step(call, value);
            &&& next.from == state.ring.taken.len() + state.ring.leaving.len()
                + state.ring.contents.len() + state.ring.coming.len()
            &&& next.have_write == call.have_write
            &&& next.goal == call.goal
            &&& call.buf.len() == 0 ==> next.phase is Finished && after == state && action is Done
            &&& call.buf.len() > 0 ==> next.phase is Checking && after == (State {
                wlock: Some(call.me),
                ..state
            }) && action is Continue
        }),
{
}

/// A turn says that the call is over exactly where it is: the lock is given
/// back, and no value that was given is missing.
pub proof fn law_write_turn_says_done_at_the_end<T>(state: State<T>, call: WriteState<T>, value: T)
    ensures
        ({
            let (after, next, action) = state.write_step(call, value);
            &&& action is Done <==> next.phase is Finished
            &&& action is Done && !(call.phase is Finished) && !(call.phase is Locking) ==> {
                &&& call.have_write >= call.buf.len()
                &&& state.wlock == Some(call.me)
                &&& after == (State { wlock: None, ..state })
                &&& next.have_write == call.have_write
            }
            &&& call.phase is Checking && state.wlock == Some(call.me) && call.have_write
                >= call.buf.len() ==> action is Done
            &&& call.phase is Finished ==> after == state && next == call && action is Done
        }),
{
}

/// The lock changes hands only where the call takes it and where it is over.
pub proof fn law_write_turn_keeps_the_lock_to_the_end<T>(
    state: State<T>,
    call: WriteState<T>,
    value: T,
)
    ensures
        ({
            let (after, next, action) = state.write_step(call, value);
            &&& after.wlock != state.wlock ==> call.phase is Locking || action is Done
            &&& !(next.phase is Locking) && !(next.phase is Finished) && !(action is Blocked)
                ==> after.wlock == Some(call.me)
        }),
{
}

/// A call waits exactly where there are fewer free slots than it is missing, and
/// fewer than it wants at a time: it lets others run, signals whoever is
/// registered, or registers itself. It has moved nothing then.
pub proof fn law_write_turn_waits_for_too_little<T>(state: State<T>, call: WriteState<T>, value: T)
    requires
        call.phase is Checking,
        state.wlock == Some(call.me),
    ensures
        ({
            let (after, next, action) = state.write_step(call, value);
            let block: int = if state.policy is Sleep {
                5
            } else {
                1
            };
            let there = state.ring.capacity - state.ring.leaving.len() - state.ring.contents.len();
            let missing = call.buf.len() - call.have_write;
            let waits = missing > 0 && there < block && there < missing;
            &&& action is Yield <==> waits && state.policy is Spin
            &&& action is Yield ==> after == state && next == call
            &&& waits && state.policy is Sleep ==> {
                &&& state.waiting is None ==> action is Park && next == (WriteState {
                    phase: Phase::Parked,
                    ..call
                }) && after == (State { waiting: Some((true, call.me)), ..state })
                &&& state.waiting is Some ==> action == Action::Nudge((state.waiting->0).1) && next
                    == call && after == (State {
                    waiting: Some((false, (state.waiting->0).1)),
                    ..state
                })
            }
            &&& missing > 0 && !waits ==> next.phase is Moving && action is Continue
        }),
{
}

/// A call that need not wait, or has waited, settles on filling all the free
/// slots that there are, or all that it is missing, whichever are fewer.
pub proof fn law_write_turn_settles_on_all_it_can<T>(state: State<T>, call: WriteState<T>, value: T)
    requires
        state.wlock == Some(call.me),
        call.have_write <= call.buf.len(),
        state.ring.leaving.len() + state.ring.contents.len() <= state.ring.capacity,
        call.phase is Resumed || (call.phase is Checking && {
            let block: int = if state.policy is Sleep {
                5
            } else {
                1
            };
            let there = state.ring.capacity - state.ring.leaving.len() - state.ring.contents.len();
            let missing = call.buf.len() - call.have_write;
            missing > 0 && (there >= block || there >= missing)
        }),
    ensures
        ({
            let (after, next, action) = state.write_step(call, value);
            let there = state.ring.capacity - state.ring.leaving.len() - state.ring.contents.len();
            let missing = call.buf.len() - call.have_write;
            &&& after == state
            &&& action is Continue
            &&& next.phase is Moving
            &&& next.have_write == call.have_write
            &&& call.have_write <= next.goal <= call.buf.len()
            &&& next.goal - call.have_write <= there
            &&& next.goal == call.buf.len() || next.goal - call.have_write == there
        }),
{
}

/// A call that sleeps sleeps on until it is signalled; then it leaves the place
/// and is content with what there is.
pub proof fn law_write_turn_sleeps_until_signalled<T>(
    state: State<T>,
    call: WriteState<T>,
    value: T,
)
    requires
        call.phase is Parked,
        state.wlock == Some(call.me),
    ensures
        ({
            let (after, next, action) = state.write_step(call, value);
            let signalled = state.waiting is Some && !(state.waiting->0).0;
            &&& !signalled ==> after == state && next == call && action is Park
            &&& signalled ==> {
                &&& after == (State { waiting: None, ..state })
                &&& next == (WriteState { phase: Phase::Resumed, ..call })
                &&& action is Continue
            }
        }),
{
}

/// A turn asks for sleep exactly where the call is one that sleeps.
pub proof fn law_write_turn_sleeps_only_when_registered<T>(
    state: State<T>,
    call: WriteState<T>,
    value: T,
)
    ensures
        ({
            let (after, next, action) = state.write_step(call, value);
            action is Park <==> next.phase is Parked && !(action is Blocked)
        }),
{
}

/// What a call writes goes into the ring behind all that is there, one value in a
/// turn, and it is the next of those that it was given: nothing is left out,
/// nothing goes in twice.
pub proof fn law_write_turn_puts_the_next<T>(state: State<T>, call: WriteState<T>, value: T)
    ensures
        ({
            let (after, next, action) = state.write_step(call, value);
            let puts = call.phase is Moving && state.wlock == Some(call.me) && call.have_write
                < call.goal && state.ring.leaving.len() + state.ring.contents.len()
                + state.ring.coming.len() < state.ring.capacity;
            &&& puts ==> next.have_write == call.have_write + 1 && after.ring.coming
                == state.ring.coming.push(value) && after.ring.contents == state.ring.contents
                && next.phase is Moving && next.goal == call.goal && after.waiting == state.waiting
                && action is Continue
            &&& !puts ==> next.have_write == call.have_write && after.ring.contents
                + after.ring.coming == state.ring.contents + state.ring.coming
            &&& puts == state.puts(call)
        }),
{
    let (after, next, action) = state.write_step(call, value);
    assert(!state.puts(call) ==> after.ring.contents + after.ring.coming =~= state.ring.contents
        + state.ring.coming);
}

/// A call shows the values that it has put in, all of them and in their order,
/// once it has filled what it settled on, and at no other time; then it signals.
pub proof fn law_write_turn_shows_at_the_goal<T>(state: State<T>, call: WriteState<T>, value: T)
    ensures
        ({
            let (after, next, action) = state.write_step(call, value);
            let shows = call.phase is Moving && state.wlock == Some(call.me) && (call.have_write
                >= call.goal || state.ring.leaving.len() + state.ring.contents.len()
                + state.ring.coming.len() >= state.ring.capacity);
            &&& shows ==> after.ring.coming.len() == 0 && after.ring.contents
                == state.ring.contents + state.ring.coming && after.waiting == state.waiting
                && action is Continue
            &&& shows <==> next.phase is Signalling && !(action is Blocked)
            &&& !shows ==> after.ring.contents == state.ring.contents
        }),
{
}

/// A call that has made its moves known signals whoever is registered, and has
/// that thread woken; then it looks again.
pub proof fn law_write_turn_signals_what_it_moved<T>(state: State<T>, call: WriteState<T>, value: T)
    requires
        call.phase is Signalling,
        state.wlock == Some(call.me),
    ensures
        ({
            let (after, next, action) = state.write_step(call, value);
            &&& next == (WriteState { phase: Phase::Checking, ..call })
            &&& state.waiting is None ==> action is Continue && after == state
            &&& state.waiting is Some ==> action == Action::Unpark((state.waiting->0).1) && after
                == (State { waiting: Some((false, (state.waiting->0).1)), ..state })
        }),
{
}

/// Whoever is signalled is named to the caller, nobody else is, and nobody who
/// sleeps is struck off unsignalled.
pub proof fn law_write_turn_names_whom_it_signals<T>(state: State<T>, call: WriteState<T>, value: T)
    ensures
        ({
            let (after, next, action) = state.write_step(call, value);
            &&& state.waiting is Some && (state.waiting->0).0 ==> {
                let thread = (state.waiting->0).1;
                ||| after.waiting == state.waiting
                ||| after.waiting == Some((false, thread)) && (action == Action::Unpark(thread)
                    || action == Action::Nudge(thread))
            }
            &&& action is Unpark || action is Nudge ==> state.waiting is Some && after.waiting
                == Some((false, (state.waiting->0).1))
            &&& action is Unpark ==> action->Unpark_0 == (state.waiting->0).1
                && call.phase is Signalling
            &&& action is Nudge ==> action->Nudge_0 == (state.waiting->0).1
                && call.phase is Checking
            &&& after.waiting is Some && (after.waiting->0).0 && after.waiting != state.waiting
                ==> (after.waiting->0).1 == call.me && action is Park
        }),
{
}

} // verus!
