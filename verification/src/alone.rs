//! What a call does from start to end where no other call comes in between.

use crate::model::{least, Phase, Policy, ReadState, State, WriteState};
use crate::ring::RingView;
use crate::system::{
    all_cloned, lemma_give_back_keeps_stored, lemma_put_extends_stored, lemma_show_keeps_stored,
    lemma_take_keeps_stored,
};
use vstd::prelude::*;

verus! {

/// The state and the call after the call has taken the given number of turns.
pub open spec fn reads_alone<T>(state: State<T>, call: ReadState<T>, turns: nat) -> (
    State<T>,
    ReadState<T>,
)
    decreases turns,
{
    if turns == 0 {
        (state, call)
    } else {
        let (after, next, _) = state.read_step(call);
        reads_alone(after, next, (turns - 1) as nat)
    }
}

/// The state and the call after the call has taken the given number of turns
/// and put in `copies`.
pub open spec fn writes_alone<T>(
    state: State<T>,
    call: WriteState<T>,
    copies: Seq<T>,
    turns: nat,
) -> (State<T>, WriteState<T>)
    decreases turns,
{
    if turns == 0 {
        (state, call)
    } else {
        let (after, next, _) = state.write_step(call, copies[call.have_write as int]);
        writes_alone(after, next, copies, (turns - 1) as nat)
    }
}

/// Every value that the call puts in, in the given number of turns, is a clone of
/// the one that it is at.
pub open spec fn puts_clones<T: Clone>(
    state: State<T>,
    call: WriteState<T>,
    copies: Seq<T>,
    turns: nat,
) -> bool
    decreases turns,
{
    if turns == 0 {
        true
    } else {
        let value = copies[call.have_write as int];
        let (after, next, _) = state.write_step(call, value);
        &&& next.have_write != call.have_write ==> cloned(call.buf[call.have_write as int], value)
        &&& puts_clones(after, next, copies, (turns - 1) as nat)
    }
}

proof fn lemma_reads_moving<T>(state: State<T>, call: ReadState<T>, turns: nat)
    requires
        state.rlock == Some(call.me),
        call.phase is Moving,
        call.ret.len() <= call.goal,
        call.goal - call.ret.len() <= state.ring.contents.len(),
        turns > call.goal - call.ret.len(),
    ensures
        ({
            let n = call.goal - call.ret.len();
            reads_alone(state, call, turns) == reads_alone(
                State { ring: state.ring.after_take(n).given_back(), ..state },
                ReadState {
                    ret: call.ret + state.ring.contents.take(n),
                    phase: Phase::Signalling,
                    ..call
                },
                (turns - n - 1) as nat,
            )
        }),
    decreases call.goal - call.ret.len(),
{
    let n = call.goal - call.ret.len();
    let ring = state.ring;
    let (after, next, _) = state.read_step(call);
    if n == 0 {
        assert(ring.after_take(0) =~= ring);
        assert(call.ret + ring.contents.take(0) =~= call.ret);
    } else {
        lemma_reads_moving(after, next, (turns - 1) as nat);
        assert(ring.after_take(1).after_take(n - 1) =~= ring.after_take(n));
        assert(next.ret + after.ring.contents.take(n - 1) =~= call.ret + ring.contents.take(n));
    }
}

/// A call that is over stays over.
proof fn lemma_reads_finished<T>(state: State<T>, call: ReadState<T>, turns: nat)
    requires
        call.phase is Finished,
    ensures
        reads_alone(state, call, turns) == (state, call),
    decreases turns,
{
    if turns > 0 {
        lemma_reads_finished(state, call, (turns - 1) as nat);
    }
}

/// Where nobody else reads and there are as many values as it is asked for, a
/// call of `read_full` comes to its end without waiting, and returns the oldest
/// values in their order.
pub proof fn law_read_full_completes<T>(state: State<T>, me: u64, amt: nat, turns: nat)
    requires
        state.rlock is None,
        state.ring.leaving.len() == 0,
        amt <= state.ring.contents.len(),
        turns >= amt + 5,
    ensures
        ({
            let (after, call) = reads_alone(state, ReadState::start(me, amt), turns);
            &&& call.phase is Finished
            &&& call.ret == state.ring.contents.take(amt as int)
            &&& after == State {
                ring: state.ring.after_take(amt as int).given_back(),
                ..(if amt > 0 {
                    state.signalled()
                } else {
                    state
                })
            }
        }),
{
    let start = ReadState::<T>::start(me, amt);
    let ring = state.ring;
    let (s1, c1, _) = state.read_step(start);
    let (s2, c2, _) = s1.read_step(c1);
    reveal_with_fuel(reads_alone, 3);
    if amt == 0 {
        lemma_reads_finished(s2, c2, (turns - 2) as nat);
        assert(ring.after_take(0).given_back() =~= ring) by {
            assert(ring.gone() =~= ring.taken);
        }
    } else {
        lemma_reads_moving(s2, c2, (turns - 2) as nat);
        let s3 = State { ring: ring.after_take(amt as int).given_back(), ..s2 };
        let c3 = ReadState {
            ret: c2.ret + ring.contents.take(amt as int),
            phase: Phase::Signalling,
            ..c2
        };
        assert(c3.ret =~= ring.contents.take(amt as int));
        let (s4, c4, _) = s3.read_step(c3);
        let (s5, c5, _) = s4.read_step(c4);
        lemma_reads_finished(s5, c5, (turns - amt - 5) as nat);
    }
}

proof fn lemma_writes_moving<T>(state: State<T>, call: WriteState<T>, copies: Seq<T>, turns: nat)
    requires
        state.wlock == Some(call.me),
        call.phase is Moving,
        call.have_write <= call.goal <= copies.len(),
        call.goal - call.have_write <= state.ring.room() - state.ring.coming.len(),
        turns > call.goal - call.have_write,
    ensures
        ({
            let fresh = copies.subrange(call.have_write as int, call.goal as int);
            writes_alone(state, call, copies, turns) == writes_alone(
                State {
                    ring: (RingView {
                        coming: state.ring.coming + fresh,
                        ..state.ring
                    }).shown(),
                    ..state
                },
                WriteState { have_write: call.goal, phase: Phase::Signalling, ..call },
                copies,
                (turns - fresh.len() - 1) as nat,
            )
        }),
    decreases call.goal - call.have_write,
{
    let ring = state.ring;
    let fresh = copies.subrange(call.have_write as int, call.goal as int);
    let value = copies[call.have_write as int];
    let (after, next, _) = state.write_step(call, value);
    if fresh.len() == 0 {
        assert(ring.coming + fresh =~= ring.coming);
    } else {
        lemma_writes_moving(after, next, copies, (turns - 1) as nat);
        assert(after.ring.coming + copies.subrange(next.have_write as int, next.goal as int)
            =~= ring.coming + fresh);
    }
}

/// A call that is over stays over.
proof fn lemma_writes_finished<T>(state: State<T>, call: WriteState<T>, copies: Seq<T>, turns: nat)
    requires
        call.phase is Finished,
    ensures
        writes_alone(state, call, copies, turns) == (state, call),
    decreases turns,
{
    if turns > 0 {
        lemma_writes_finished(state, call, copies, (turns - 1) as nat);
    }
}

/// Where nobody else writes and there is room for all that it is given, a call
/// of `write_full` comes to its end without waiting, and puts the values behind
/// those that are there.
pub proof fn law_write_full_completes<T>(
    state: State<T>,
    me: u64,
    buf: Seq<T>,
    copies: Seq<T>,
    turns: nat,
)
    requires
        state.wlock is None,
        state.ring.coming.len() == 0,
        buf.len() <= state.ring.room(),
        copies.len() == buf.len(),
        turns >= buf.len() + 5,
    ensures
        ({
            let (after, call) = writes_alone(state, WriteState::start(me, buf), copies, turns);
            &&& call.phase is Finished
            &&& after == State {
                ring: RingView { contents: state.ring.contents + copies, ..state.ring },
                ..(if buf.len() > 0 {
                    state.signalled()
                } else {
                    state
                })
            }
        }),
{
    let start = WriteState::start(me, buf);
    let ring = state.ring;
    let (s1, c1, _) = state.write_step(start, copies[0]);
    let (s2, c2, _) = s1.write_step(c1, copies[0]);
    reveal_with_fuel(writes_alone, 3);
    if buf.len() == 0 {
        lemma_writes_finished(s1, c1, copies, (turns - 1) as nat);
        assert(ring.contents + copies =~= ring.contents);
    } else {
        lemma_writes_moving(s2, c2, copies, (turns - 2) as nat);
        let fresh = copies.subrange(0, buf.len() as int);
        assert(fresh =~= copies);
        let filled = RingView { coming: ring.coming + fresh, ..ring };
        assert(filled.shown() =~= RingView { contents: ring.contents + copies, ..ring });
        let s3 = State { ring: filled.shown(), ..s2 };
        let c3 = WriteState { have_write: buf.len(), phase: Phase::Signalling, ..c2 };
        let value = copies[c3.have_write as int];
        let (s4, c4, _) = s3.write_step(c3, value);
        let (s5, c5, _) = s4.write_step(c4, value);
        lemma_writes_finished(s5, c5, copies, (turns - buf.len() - 5) as nat);
    }
}

/// Nobody uses the ring buffer, and it holds no more than it may.
pub open spec fn idle<T>(state: State<T>) -> bool {
    &&& state.ring.contents.len() <= state.ring.capacity
    &&& state.rlock is None
    &&& state.wlock is None
    &&& state.ring.leaving.len() == 0
    &&& state.ring.coming.len() == 0
}

/// What is written into a ring buffer that is empty and that nobody uses,
/// however often it was used before, comes out of it again: the same number of
/// values, each a clone of what was given, in the same order.
pub proof fn law_write_then_read<T: Clone>(
    state: State<T>,
    writer: u64,
    reader: u64,
    buf: Seq<T>,
    copies: Seq<T>,
)
    requires
        idle(state),
        state.ring.contents.len() == 0,
        buf.len() <= state.ring.capacity,
        all_cloned(buf, copies),
    ensures
        ({
            let turns = buf.len() + 5;
            let (full, call) = writes_alone(state, WriteState::start(writer, buf), copies, turns);
            let (after, next) = reads_alone(full, ReadState::start(reader, buf.len()), turns);
            &&& call.phase is Finished
            &&& next.phase is Finished
            &&& all_cloned(buf, next.ret)
            &&& idle(after)
            &&& after.ring.contents.len() == 0
        }),
{
    let turns = buf.len() + 5;
    law_write_full_completes(state, writer, buf, copies, turns);
    let (full, _) = writes_alone(state, WriteState::start(writer, buf), copies, turns);
    assert(full.ring.contents =~= copies);
    law_read_full_completes(full, reader, buf.len(), turns);
    assert(copies.take(buf.len() as int) =~= copies);
}

/// A read that does not wait, where nobody else reads, returns the oldest
/// values, as many as there are and as it is asked for.
pub proof fn law_read_takes_what_there_is<T>(state: State<T>, amt: nat)
    requires
        state.rlock is None,
        state.ring.leaving.len() == 0,
    ensures
        ({
            let n = least(state.ring.contents.len() as int, amt as int);
            let (after, values, _) = state.try_read(amt);
            &&& values == state.ring.contents.take(n)
            &&& after.ring == state.ring.after_take(n).given_back()
        }),
{
    let ring = state.ring;
    if ring.contents.len() == 0 {
        assert(ring.contents.take(0) =~= Seq::empty());
        assert(ring.gone() =~= ring.taken);
        assert(ring.after_take(0).given_back() =~= ring);
    }
}

/// What holds of a call that reads from its start to its end.
spec fn reads_soundly<T>(state: State<T>, call: ReadState<T>) -> bool {
    &&& call.ret.len() <= call.to_read && call.goal <= call.to_read
    &&& state.ring.used() + state.ring.coming.len() <= state.ring.capacity
    &&& state.rlock == (if call.holding() {
        Some(call.me)
    } else {
        None
    })
    &&& !(call.phase is Moving) ==> state.ring.leaving.len() == 0
    &&& call.phase is Finished ==> call.ret.len() == call.to_read
}

/// Whatever number of turns a call takes that reads, it has moved what left the
/// ring, and put nothing in.
proof fn lemma_reads_move_gone<T>(state: State<T>, call: ReadState<T>, turns: nat)
    requires
        reads_soundly(state, call),
    ensures
        ({
            let (after, next) = reads_alone(state, call, turns);
            &&& reads_soundly(after, next)
            &&& next.to_read == call.to_read
            &&& call.ret.is_prefix_of(next.ret)
            &&& after.ring.gone() == state.ring.gone() + next.ret.skip(call.ret.len() as int)
            &&& after.ring.stored() == state.ring.stored()
            &&& after.ring.coming == state.ring.coming
            &&& after.ring.capacity == state.ring.capacity
            &&& after.wlock == state.wlock
        }),
    decreases turns,
{
    if turns == 0 {
        assert(state.ring.gone() + call.ret.skip(call.ret.len() as int) =~= state.ring.gone());
    } else {
        let (after, next, _) = state.read_step(call);
        lemma_give_back_keeps_stored(state.ring);
        if state.ring.contents.len() > 0 {
            lemma_take_keeps_stored(state.ring, 1);
        }
        assert(call.ret.is_prefix_of(next.ret));
        assert(after.ring.gone() =~= state.ring.gone() + next.ret.skip(call.ret.len() as int));
        lemma_reads_move_gone(after, next, (turns - 1) as nat);
        let (end, last) = reads_alone(after, next, (turns - 1) as nat);
        assert(last.ret.skip(call.ret.len() as int) =~= next.ret.skip(call.ret.len() as int)
            + last.ret.skip(next.ret.len() as int));
        assert(end.ring.gone() =~= state.ring.gone() + last.ret.skip(call.ret.len() as int));
    }
}

/// What holds of a call that writes from its start to its end.
spec fn writes_soundly<T>(state: State<T>, call: WriteState<T>, copies: Seq<T>) -> bool {
    &&& copies.len() == call.buf.len()
    &&& call.have_write <= call.buf.len() && call.goal <= call.buf.len()
    &&& state.ring.used() + state.ring.coming.len() <= state.ring.capacity
    &&& state.wlock == (if call.holding() {
        Some(call.me)
    } else {
        None
    })
    &&& !(call.phase is Moving) ==> state.ring.coming.len() == 0
    &&& call.phase is Finished ==> call.have_write == call.buf.len()
}

/// Whatever number of turns a call takes that writes, it has moved what came
/// into the ring, and taken nothing out.
proof fn lemma_writes_move_stored<T>(
    state: State<T>,
    call: WriteState<T>,
    copies: Seq<T>,
    turns: nat,
)
    requires
        writes_soundly(state, call, copies),
    ensures
        ({
            let (after, next) = writes_alone(state, call, copies, turns);
            &&& writes_soundly(after, next, copies)
            &&& next.buf == call.buf
            &&& call.have_write <= next.have_write
            &&& after.ring.stored() == state.ring.stored() + copies.subrange(
                call.have_write as int,
                next.have_write as int,
            )
            &&& after.ring.gone() == state.ring.gone()
            &&& after.ring.leaving == state.ring.leaving
            &&& after.ring.capacity == state.ring.capacity
            &&& after.rlock == state.rlock
        }),
    decreases turns,
{
    let from = call.have_write as int;
    if turns == 0 {
        assert(state.ring.stored() + copies.subrange(from, from) =~= state.ring.stored());
    } else {
        let value = copies[from];
        let (after, next, _) = state.write_step(call, value);
        lemma_show_keeps_stored(state.ring);
        lemma_put_extends_stored(state.ring, value);
        let to = next.have_write as int;
        assert(after.ring.stored() =~= state.ring.stored() + copies.subrange(from, to));
        assert(after.ring.gone() =~= state.ring.gone());
        lemma_writes_move_stored(after, next, copies, (turns - 1) as nat);
        let (end, last) = writes_alone(after, next, copies, (turns - 1) as nat);
        assert(copies.subrange(from, last.have_write as int) =~= copies.subrange(from, to)
            + copies.subrange(to, last.have_write as int));
        assert(end.ring.stored() =~= state.ring.stored() + copies.subrange(
            from,
            last.have_write as int,
        ));
    }
}

/// What a call has put in are clones of what it was given, each of the one at the
/// same place.
proof fn lemma_copies_are_clones<T: Clone>(
    state: State<T>,
    call: WriteState<T>,
    copies: Seq<T>,
    turns: nat,
)
    requires
        writes_soundly(state, call, copies),
        puts_clones(state, call, copies, turns),
    ensures
        forall|i: int|
            call.have_write <= i < writes_alone(state, call, copies, turns).1.have_write ==> cloned(
                #[trigger] call.buf[i],
                copies[i],
            ),
    decreases turns,
{
    if turns > 0 {
        let value = copies[call.have_write as int];
        let (after, next, _) = state.write_step(call, value);
        lemma_writes_move_stored(state, call, copies, 1);
        assert(writes_alone(state, call, copies, 1) == (after, next)) by {
            reveal_with_fuel(writes_alone, 2);
        }
        lemma_copies_are_clones(after, next, copies, (turns - 1) as nat);
        assert forall|i: int|
            call.have_write <= i < writes_alone(state, call, copies, turns).1.have_write implies cloned(
            #[trigger] call.buf[i],
            copies[i],
        ) by {
            if i >= next.have_write {
                assert(next.buf[i] == call.buf[i]);
            }
        }
    }
}

/// A call of `write_full` that has come to its end, with no other in between, has
/// put clones of all the values that the caller gave, in the caller's order,
/// behind those that were there, and has changed nothing else of the queue.
pub proof fn law_write_full_writes_what_it_was_given<T: Clone>(
    state: State<T>,
    me: u64,
    values: Seq<T>,
    copies: Seq<T>,
    turns: nat,
)
    requires
        idle(state),
        copies.len() == values.len(),
        puts_clones(state, WriteState::start(me, values), copies, turns),
        writes_alone(state, WriteState::start(me, values), copies, turns).1.phase is Finished,
    ensures
        ({
            let (after, _) = writes_alone(state, WriteState::start(me, values), copies, turns);
            let old_len = state.ring.contents.len() as int;
            &&& after.ring.contents.len() == old_len + values.len()
            &&& after.ring.contents.take(old_len) == state.ring.contents
            &&& all_cloned(values, after.ring.contents.skip(old_len))
            &&& after.ring.taken == state.ring.taken
            &&& after.ring.capacity == state.ring.capacity
            &&& idle(after)
        }),
{
    let call = WriteState::start(me, values);
    let (after, next) = writes_alone(state, call, copies, turns);
    lemma_writes_move_stored(state, call, copies, turns);
    lemma_copies_are_clones(state, call, copies, turns);
    let (ring, end) = (state.ring, after.ring);
    assert(copies.subrange(0, copies.len() as int) =~= copies);
    assert(end.gone() == ring.gone());
    assert(ring.stored() =~= ring.gone() + ring.contents);
    assert(end.stored() =~= end.gone() + end.contents);
    assert(end.contents =~= end.stored().skip(end.gone().len() as int));
    assert(end.contents =~= ring.contents + copies);
    assert(end.contents.take(ring.contents.len() as int) =~= ring.contents);
    assert(end.contents.skip(ring.contents.len() as int) =~= copies);
    assert(end.taken =~= end.gone());
    assert(ring.taken =~= ring.gone());
    assert forall|i: int| 0 <= i < values.len() implies cloned(#[trigger] values[i], copies[i]) by {
        assert(call.buf[i] == values[i]);
    }
}

/// A call of `read_full` that has come to its end, with no other in between, has
/// returned as many values as the caller asked for, the oldest, in their order,
/// and the rest is still there.
pub proof fn law_read_full_returns_what_it_was_asked<T>(
    state: State<T>,
    me: u64,
    amt: nat,
    turns: nat,
)
    requires
        idle(state),
        reads_alone(state, ReadState::start(me, amt), turns).1.phase is Finished,
    ensures
        ({
            let (after, call) = reads_alone(state, ReadState::start(me, amt), turns);
            &&& call.ret.len() == amt
            &&& call.ret + after.ring.contents == state.ring.contents
            &&& after.ring.taken == state.ring.taken + call.ret
            &&& after.ring.capacity == state.ring.capacity
            &&& idle(after)
        }),
{
    let start = ReadState::<T>::start(me, amt);
    lemma_reads_move_gone(state, start, turns);
    let (after, call) = reads_alone(state, start, turns);
    let (ring, end) = (state.ring, after.ring);
    assert(call.ret.skip(0) =~= call.ret);
    assert(ring.stored() =~= ring.taken + ring.contents);
    assert(end.stored() =~= end.taken + end.contents);
    assert(end.taken =~= end.gone());
    assert(ring.taken =~= ring.gone());
    assert(ring.contents =~= ring.stored().skip(ring.taken.len() as int));
    assert(call.ret + end.contents =~= end.stored().skip(ring.taken.len() as int));
}

/// What the caller of `write_full` gives to an empty ring buffer that nobody uses
/// is what the caller of `read_full` gets, in the same order, as clones: every
/// write that fits comes to its end, and so does the read.
pub proof fn law_what_is_given_comes_back<T: Clone>(
    state: State<T>,
    writer: u64,
    reader: u64,
    values: Seq<T>,
    copies: Seq<T>,
)
    requires
        idle(state),
        state.ring.contents.len() == 0,
        values.len() <= state.ring.capacity,
        copies.len() == values.len(),
        puts_clones(state, WriteState::start(writer, values), copies, values.len() + 5),
    ensures
        ({
            let turns = values.len() + 5;
            let (full, wrote) = writes_alone(
                state,
                WriteState::start(writer, values),
                copies,
                turns,
            );
            let (after, got) = reads_alone(full, ReadState::start(reader, values.len()), turns);
            &&& wrote.phase is Finished
            &&& got.phase is Finished
            &&& all_cloned(values, full.ring.contents)
            &&& all_cloned(values, got.ret)
            &&& after.ring.contents.len() == 0
        }),
{
    let turns = values.len() + 5;
    let start = WriteState::start(writer, values);
    law_write_full_completes(state, writer, values, copies, turns);
    law_write_full_writes_what_it_was_given(state, writer, values, copies, turns);
    let (full, _) = writes_alone(state, start, copies, turns);
    assert(full.ring.contents.skip(0) =~= full.ring.contents);
    law_read_full_completes(full, reader, values.len(), turns);
    law_read_full_returns_what_it_was_asked(full, reader, values.len(), turns);
    let (_, got) = reads_alone(full, ReadState::start(reader, values.len()), turns);
    assert(full.ring.contents.take(values.len() as int) =~= full.ring.contents);
}

/// A call as one thread makes it: of those that go in turns, with how many it takes.
pub enum Op<T> {
    /// `write_full` of `buf`, which puts in `copies`.
    WriteFull { buf: Seq<T>, copies: Seq<T>, turns: nat },
    /// `read_full` of `amt` values.
    ReadFull { amt: nat, turns: nat },
    /// `read` of up to `amt` values.
    Read { amt: nat },
}

/// What becomes of a ring buffer, and what comes out of it.
#[verifier::ext_equal]
pub struct Outcome<T> {
    pub state: State<T>,
    /// What the calls returned, one after the other.
    pub returned: Seq<T>,
    /// The clones of what the calls were given, one after the other.
    pub written: Seq<T>,
    /// What the calls were given to write, one after the other.
    pub given: Seq<T>,
    /// Every call came to its end.
    pub completed: bool,
}

/// One call by thread `me`.
pub open spec fn one_call<T: Clone>(state: State<T>, me: u64, op: Op<T>) -> Outcome<T> {
    match op {
        Op::WriteFull { buf, copies, turns } => {
            let (after, call) = writes_alone(state, WriteState::start(me, buf), copies, turns);
            Outcome {
                state: after,
                returned: Seq::empty(),
                written: copies,
                given: buf,
                completed: call.phase is Finished && copies.len() == buf.len() && puts_clones(
                    state,
                    WriteState::start(me, buf),
                    copies,
                    turns,
                ),
            }
        },
        Op::ReadFull { amt, turns } => {
            let (after, call) = reads_alone(state, ReadState::start(me, amt), turns);
            Outcome {
                state: after,
                returned: call.ret,
                written: Seq::empty(),
                given: Seq::empty(),
                completed: call.phase is Finished,
            }
        },
        Op::Read { amt } => {
            let (after, values, _) = state.try_read(amt);
            Outcome {
                state: after,
                returned: values,
                written: Seq::empty(),
                given: Seq::empty(),
                completed: true,
            }
        },
    }
}

/// The calls `ops` by thread `me`, one after the other.
pub open spec fn history<T: Clone>(state: State<T>, me: u64, ops: Seq<Op<T>>) -> Outcome<T>
    decreases ops.len(),
{
    if ops.len() == 0 {
        Outcome {
            state,
            returned: Seq::empty(),
            written: Seq::empty(),
            given: Seq::empty(),
            completed: true,
        }
    } else {
        let before = history(state, me, ops.drop_last());
        let last = one_call(before.state, me, ops.last());
        Outcome {
            state: last.state,
            returned: before.returned + last.returned,
            written: before.written + last.written,
            given: before.given + last.given,
            completed: before.completed && last.completed,
        }
    }
}

proof fn lemma_one_call<T: Clone>(state: State<T>, me: u64, op: Op<T>)
    requires
        idle(state),
        one_call(state, me, op).completed,
    ensures
        ({
            let outcome = one_call(state, me, op);
            let (ring, after) = (state.ring, outcome.state.ring);
            &&& idle(outcome.state)
            &&& after.capacity == ring.capacity
            &&& after.gone() == ring.gone() + outcome.returned
            &&& after.stored() == ring.stored() + outcome.written
            &&& all_cloned(outcome.given, outcome.written)
        }),
{
    let outcome = one_call(state, me, op);
    let (ring, after) = (state.ring, outcome.state.ring);
    match op {
        Op::WriteFull { buf, copies, turns } => {
            lemma_writes_move_stored(state, WriteState::start(me, buf), copies, turns);
            lemma_copies_are_clones(state, WriteState::start(me, buf), copies, turns);
            assert(copies.subrange(0, copies.len() as int) =~= copies);
            assert forall|i: int| 0 <= i < buf.len() implies cloned(#[trigger] buf[i], copies[i]) by {
                assert(WriteState::start(me, buf).buf[i] == buf[i]);
            }
            assert(after.gone() =~= ring.gone() + outcome.returned);
        },
        Op::ReadFull { amt, turns } => {
            lemma_reads_move_gone(state, ReadState::start(me, amt), turns);
            assert(outcome.returned.skip(0) =~= outcome.returned);
            assert(after.stored() =~= ring.stored() + outcome.written);
        },
        Op::Read { amt } => {
            law_read_takes_what_there_is(state, amt);
            let n = least(ring.contents.len() as int, amt as int);
            lemma_take_keeps_stored(ring, n);
            lemma_give_back_keeps_stored(ring.after_take(n));
            assert(after.stored() =~= ring.stored() + outcome.written);
        },
    }
}

proof fn lemma_history<T: Clone>(state: State<T>, me: u64, ops: Seq<Op<T>>)
    requires
        idle(state),
        history(state, me, ops).completed,
    ensures
        ({
            let outcome = history(state, me, ops);
            let (ring, after) = (state.ring, outcome.state.ring);
            &&& idle(outcome.state)
            &&& after.capacity == ring.capacity
            &&& after.gone() == ring.gone() + outcome.returned
            &&& after.stored() == ring.stored() + outcome.written
            &&& all_cloned(outcome.given, outcome.written)
        }),
    decreases ops.len(),
{
    let outcome = history(state, me, ops);
    if ops.len() > 0 {
        lemma_history(state, me, ops.drop_last());
        let before = history(state, me, ops.drop_last());
        lemma_one_call(before.state, me, ops.last());
    }
    assert(outcome.state.ring.gone() =~= state.ring.gone() + outcome.returned);
    assert(outcome.state.ring.stored() =~= state.ring.stored() + outcome.written);
}

/// One thread that writes and reads as it likes gets back what it wrote: all
/// that its calls returned, one after the other, and then what is in the ring,
/// is all that it was given to write, as clones, one after the other, with nothing
/// lost, repeated or out of place, however often the cursors went round. It holds of every number of
/// calls that came to their end, on a new ring buffer of any capacity.
pub proof fn law_history_of_one_thread<T: Clone>(
    capacity: nat,
    policy: Policy,
    me: u64,
    ops: Seq<Op<T>>,
)
    requires
        history(State::<T>::empty(capacity, policy), me, ops).completed,
    ensures
        ({
            let outcome = history(State::<T>::empty(capacity, policy), me, ops);
            &&& outcome.returned + outcome.state.ring.contents == outcome.written
            &&& all_cloned(outcome.given, outcome.returned + outcome.state.ring.contents)
            &&& idle(outcome.state)
        }),
{
    let empty = State::<T>::empty(capacity, policy);
    lemma_history(empty, me, ops);
    let outcome = history(empty, me, ops);
    let ring = outcome.state.ring;
    assert(ring.gone() =~= outcome.returned);
    assert(ring.stored() =~= outcome.written);
    assert(ring.stored() =~= outcome.returned + ring.contents);
}

} // verus!
