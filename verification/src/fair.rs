//! Every call comes to its end, as long as every thread that is awake goes on.

use crate::counts::{
    law_next_keeps_counted, lemma_fresh_calls_counted, lemma_total_least, lemma_total_monotone,
    lemma_total_update, total,
};
use crate::laws::{law_lacking_cannot_finish, law_no_deadlock, law_stalled_is_lacking};
use crate::model::{least, Phase, State};
use crate::system::{law_next_keeps_inv, Call, System};
use vstd::prelude::*;

verus! {

/// How far a call is from the end of a round, where a round that starts moves
/// something: it ends where the call is in the midst of moving.
pub open spec fn straight_rank(phase: Phase, asleep: bool, at_goal: bool) -> nat {
    match phase {
        Phase::Moving => if at_goal {
            8
        } else {
            2
        },
        Phase::Signalling => 7,
        Phase::Checking => 6,
        Phase::Parked => if asleep {
            5
        } else {
            4
        },
        Phase::Resumed => 3,
        _ => 0,
    }
}

/// How far a call is from going to sleep, where there is nothing for it to move.
pub open spec fn idle_rank(phase: Phase, asleep: bool) -> nat {
    match phase {
        Phase::Parked => if asleep {
            0
        } else {
            5
        },
        Phase::Resumed => 4,
        Phase::Moving => 3,
        Phase::Signalling => 2,
        Phase::Checking => 1,
        _ => 0,
    }
}

impl<T: Clone> System<T> {
    /// What a call has before it: the values to move, and the lock to take and
    /// to give back.
    pub open spec fn toil(self, id: nat) -> nat {
        if !self.calls.contains_key(id) {
            0
        } else {
            let call = self.calls[id];
            let locks: int = match call.phase() {
                Phase::Locking => 2,
                Phase::Finished => 0,
                _ => 1,
            };
            let missing = match call {
                Call::Read(c) => c.missing(),
                Call::Write(c) => c.missing(),
            };
            if missing < 0 {
                0
            } else {
                (missing + locks) as nat
            }
        }
    }

    /// The call that reads and is under way.
    pub open spec fn reading(self, id: nat) -> bool {
        self.reads(id) && self.reader(id).holding()
    }

    /// The call that writes and is under way.
    pub open spec fn writing(self, id: nat) -> bool {
        self.writes(id) && self.writer(id).holding()
    }

    pub open spec fn read_rank(self) -> nat {
        if exists|id: nat| self.reading(id) {
            let id = choose|id: nat| self.reading(id);
            let call = self.reader(id);
            if self.state.ring.used() == 0 {
                idle_rank(call.phase, self.asleep(id))
            } else {
                8 * straight_rank(call.phase, self.asleep(id), call.ret.len() >= call.goal)
            }
        } else {
            0
        }
    }

    pub open spec fn write_rank(self) -> nat {
        if exists|id: nat| self.writing(id) {
            let id = choose|id: nat| self.writing(id);
            let call = self.writer(id);
            if self.state.ring.room() <= 0 {
                idle_rank(call.phase, self.asleep(id))
            } else {
                8 * straight_rank(call.phase, self.asleep(id), call.have_write >= call.goal)
            }
        } else {
            0
        }
    }

    /// At how many ends of the ring values are on their way.
    pub open spec fn pending(self) -> nat {
        let leaving: nat = if self.state.ring.leaving.len() > 0 {
            1
        } else {
            0
        };
        let coming: nat = if self.state.ring.coming.len() > 0 {
            1
        } else {
            0
        };
        leaving + coming
    }

    /// What is left to do of the calls below `n`: each turn that changes
    /// anything makes it less.
    pub open spec fn work(self, n: nat) -> nat {
        600 * total(|id: nat| self.toil(id), n) + 200 * self.pending() + self.read_rank()
            + self.write_rank()
    }

    /// How many values call `id` is to read.
    pub open spec fn asked(self, id: nat) -> nat {
        if self.reads(id) {
            self.reader(id).to_read
        } else {
            0
        }
    }

    /// How many values call `id` is to write.
    pub open spec fn given(self, id: nat) -> nat {
        if self.writes(id) {
            self.writer(id).buf.len()
        } else {
            0
        }
    }

    /// The calls below `n` that read and those that write match: enough is
    /// written for every read, and what is not read fits into the ring.
    pub open spec fn balanced(self, n: nat) -> bool {
        let asked = total(|id: nat| self.asked(id), n);
        let given = total(|id: nat| self.given(id), n);
        asked <= given <= asked + self.state.ring.capacity
    }

    /// The ring holds as many values as any one call wants to find at a time, or
    /// slots that it wants to find free.
    pub open spec fn ample(self) -> bool {
        let capacity = self.state.ring.capacity;
        let block_size = self.state.policy.block_size();
        &&& capacity > 0
        &&& forall|r: nat| #[trigger]
            self.reads(r) ==> least(block_size, self.reader(r).to_read as int) <= capacity
        &&& forall|w: nat| #[trigger]
            self.writes(w) ==> least(block_size, self.writer(w).buf.len() as int) <= capacity
    }
}

proof fn lemma_the_reader<T: Clone>(system: System<T>, id: nat)
    requires
        system.inv(),
        system.reading(id),
    ensures
        (choose|x: nat| system.reading(x)) == id,
{
    let x = choose|x: nat| system.reading(x);
    if x != id {
        assert(system.reads_exclude(x, id));
    }
}

proof fn lemma_the_writer<T: Clone>(system: System<T>, id: nat)
    requires
        system.inv(),
        system.writing(id),
    ensures
        (choose|x: nat| system.writing(x)) == id,
{
    let x = choose|x: nat| system.writing(x);
    if x != id {
        assert(system.writes_exclude(x, id));
    }
}

/// Whoever sleeps is the call under way of its side.
proof fn lemma_sleeper_is_under_way<T: Clone>(system: System<T>)
    requires
        system.inv(),
        system.state.waiter() is Some,
    ensures
        exists|id: nat| #[trigger] system.parked(id) && (system.reading(id) || system.writing(id)),
{
    let id = choose|id: nat| #[trigger] system.parked(id);
    if system.reads(id) {
        assert(system.reading(id));
    } else {
        assert(system.writes(id) && system.writing(id));
    }
}

proof fn lemma_ranks_bounded<T: Clone>(system: System<T>)
    ensures
        system.read_rank() <= 64,
        system.write_rank() <= 64,
        system.pending() <= 2,
{
}

/// A turn of a call that reads changes nothing, or leaves less to do.
proof fn lemma_read_turn_works<T: Clone>(
    pre: System<T>,
    post: System<T>,
    id: nat,
    value: T,
    n: nat,
)
    requires
        pre.inv(),
        post.inv(),
        pre.ample(),
        pre.numbered(n),
        pre.reads(id),
        pre.turn(post, id, value),
    ensures
        post == pre || post.work(n) < pre.work(n),
{
    let call = pre.reader(id);
    let after = post.reader(id);
    assert(pre.read_in_order(id) && post.reads(id) && post.read_in_order(id));
    assert(pre.calls.contains_key(id));
    lemma_total_update(|x: nat| pre.toil(x), |x: nat| post.toil(x), n, id);
    lemma_ranks_bounded(pre);
    lemma_ranks_bounded(post);
    if after.ret.len() != call.ret.len() || call.phase is Locking || after.phase is Finished {
        if pre.state.read_blocked(call) || call.phase is Finished {
            assert(post.calls =~= pre.calls);
        }
    } else {
        assert(pre.reading(id) && post.reading(id));
        lemma_the_reader(pre, id);
        lemma_the_reader(post, id);
        assert forall|x: nat| pre.writing(x) == post.writing(x) by {
            assert(x != id ==> pre.writes(x) == post.writes(x));
        }
        if exists|x: nat| pre.writing(x) {
            let w = choose|x: nat| pre.writing(x);
            lemma_the_writer(pre, w);
            assert(post.writing(w));
            lemma_the_writer(post, w);
            assert(pre.written_in_order(w));
            assert(w != id);
            assert(pre.reads(id) && pre.writes(w));
        }
        if pre.state.waiter() is Some {
            lemma_sleeper_is_under_way(pre);
            let sleeper = choose|x: nat| #[trigger]
                pre.parked(x) && (pre.reading(x) || pre.writing(x));
            if pre.reading(sleeper) {
                lemma_the_reader(pre, sleeper);
            } else {
                lemma_the_writer(pre, sleeper);
            }
        }
        if post.state == pre.state && after == call {
            assert(post.calls =~= pre.calls);
        }
    }
}

/// A turn of a call that writes changes nothing, or leaves less to do.
proof fn lemma_write_turn_works<T: Clone>(
    pre: System<T>,
    post: System<T>,
    id: nat,
    value: T,
    n: nat,
)
    requires
        pre.inv(),
        post.inv(),
        pre.ample(),
        pre.numbered(n),
        pre.writes(id),
        pre.turn(post, id, value),
    ensures
        post == pre || post.work(n) < pre.work(n),
{
    let call = pre.writer(id);
    let after = post.writer(id);
    assert(pre.written_in_order(id) && post.writes(id) && post.written_in_order(id));
    assert(pre.calls.contains_key(id));
    lemma_total_update(|x: nat| pre.toil(x), |x: nat| post.toil(x), n, id);
    lemma_ranks_bounded(pre);
    lemma_ranks_bounded(post);
    if after.have_write != call.have_write || call.phase is Locking || after.phase is Finished {
        if pre.state.write_blocked(call) || call.phase is Finished {
            assert(post.calls =~= pre.calls);
        }
    } else {
        assert(pre.writing(id) && post.writing(id));
        lemma_the_writer(pre, id);
        lemma_the_writer(post, id);
        assert forall|x: nat| pre.reading(x) == post.reading(x) by {
            assert(x != id ==> pre.reads(x) == post.reads(x));
        }
        if exists|x: nat| pre.reading(x) {
            let r = choose|x: nat| pre.reading(x);
            lemma_the_reader(pre, r);
            assert(post.reading(r));
            lemma_the_reader(post, r);
            assert(pre.read_in_order(r));
            assert(r != id);
            assert(pre.reads(r) && pre.writes(id));
        }
        if pre.state.waiter() is Some {
            lemma_sleeper_is_under_way(pre);
            let sleeper = choose|x: nat| #[trigger]
                pre.parked(x) && (pre.reading(x) || pre.writing(x));
            if pre.reading(sleeper) {
                lemma_the_reader(pre, sleeper);
            } else {
                lemma_the_writer(pre, sleeper);
            }
        }
        if post.state == pre.state && after == call {
            assert(post.calls =~= pre.calls);
        }
    }
}

/// A turn changes nothing, or leaves less to do: calls cannot keep each other
/// busy for ever without moving anything.
pub proof fn law_turns_get_work_done<T: Clone>(
    pre: System<T>,
    post: System<T>,
    id: nat,
    value: T,
    n: nat,
)
    requires
        pre.inv(),
        pre.ample(),
        pre.numbered(n),
        pre.turn(post, id, value),
    ensures
        post == pre || post.work(n) < pre.work(n),
{
    assert(pre.next(post));
    law_next_keeps_inv(pre, post);
    if pre.reads(id) {
        lemma_read_turn_works(pre, post, id, value, n);
    } else {
        assert(pre.writes(id));
        lemma_write_turn_works(pre, post, id, value, n);
    }
}

/// A call that is about to signal can go on.
proof fn lemma_signalling_goes_on<T: Clone>(system: System<T>, id: nat)
    requires
        system.inv(),
        system.signalling(id),
    ensures
        system.unfinished(id),
        !system.stalled(id),
{
    if system.reads(id) {
        assert(system.read_in_order(id));
    } else {
        assert(system.writes(id));
        assert(system.written_in_order(id));
        let call = system.writer(id);
        let value: T = arbitrary();
        assert(system.state.write_step(call, value).1.phase != call.phase);
    }
}

/// Where all that is written is in, a call that reads has what it lacks.
proof fn lemma_reader_is_served<T: Clone>(system: System<T>, n: nat, r: nat)
    requires
        system.inv(),
        system.counted(),
        system.numbered(n),
        system.balanced(n),
        system.reads(r),
        forall|x: nat| #[trigger] system.writes(x) ==> system.writer(x).phase is Finished,
    ensures
        system.state.ring.contents.len() >= system.reader(r).missing(),
{
    let ring = system.state.ring;
    let (read, asked) = (|x: nat| system.read_count(x), |x: nat| system.asked(x));
    let (written, given) = (|x: nat| system.write_count(x), |x: nat| system.given(x));
    assert(ring.coming.len() == 0) by {
        if system.state.wlock is Some {
            let holder = choose|x: nat| #[trigger]
                system.writes(x) && system.writer(x).holding() && system.writer(x).me
                    == system.state.wlock->0;
            assert(false);
        }
    }
    assert forall|x: nat| x < n implies #[trigger] read(x) <= asked(x) by {
        if system.reads(x) {
            assert(system.read_in_order(x));
        }
    }
    assert forall|x: nat| x < n implies #[trigger] given(x) <= written(x) by {
        if system.writes(x) {
            assert(system.written_in_order(x));
        }
    }
    lemma_total_monotone(given, written, n);
    assert(system.calls.contains_key(r));
    lemma_total_least(read, asked, n, r);
}

/// Where all reads are over, a call that writes has the room that it lacks.
proof fn lemma_writer_is_served<T: Clone>(system: System<T>, n: nat, w: nat)
    requires
        system.inv(),
        system.counted(),
        system.numbered(n),
        system.balanced(n),
        system.writes(w),
        forall|x: nat| #[trigger] system.reads(x) ==> system.reader(x).phase is Finished,
    ensures
        system.state.ring.room() >= system.writer(w).missing(),
{
    let ring = system.state.ring;
    let (read, asked) = (|x: nat| system.read_count(x), |x: nat| system.asked(x));
    let (written, given) = (|x: nat| system.write_count(x), |x: nat| system.given(x));
    assert(ring.leaving.len() == 0) by {
        if system.state.rlock is Some {
            let holder = choose|x: nat| #[trigger]
                system.reads(x) && system.reader(x).holding() && system.reader(x).me
                    == system.state.rlock->0;
            assert(false);
        }
    }
    assert forall|x: nat| x < n implies #[trigger] asked(x) <= read(x) by {
        if system.reads(x) {
            assert(system.read_in_order(x));
        }
    }
    assert forall|x: nat| x < n implies #[trigger] written(x) <= given(x) by {
        if system.writes(x) {
            assert(system.written_in_order(x));
        }
    }
    lemma_total_monotone(asked, read, n);
    assert(system.calls.contains_key(w));
    lemma_total_least(written, given, n, w);
}

impl<T: Clone> System<T> {
    /// Call `id` has its turn with its thread: the call that the thread makes
    /// before it, if there is one, is over.
    pub open spec fn ready(self, before: spec_fn(nat) -> Option<nat>, id: nat) -> bool {
        match before(id) {
            Some(earlier) => !self.unfinished(earlier),
            None => true,
        }
    }

    /// A thread reads only or writes only, and makes its calls one after the
    /// other: `before(id)` is the call that comes before call `id`.
    pub open spec fn ordered(self, before: spec_fn(nat) -> Option<nat>) -> bool {
        forall|id: nat| #[trigger]
            self.calls.contains_key(id) ==> {
                &&& !(self.calls[id].phase() is Locking) ==> self.ready(before, id)
                &&& before(id) matches Some(earlier) ==> {
                    &&& earlier < id
                    &&& self.reads(earlier) == self.reads(id)
                    &&& self.writes(earlier) == self.writes(id)
                }
            }
    }
}

/// Where a call that reads is not over, there is one that is not over, has its
/// turn with its thread, and is under way or can take the lock.
proof fn lemma_ready_reader<T: Clone>(
    system: System<T>,
    before: spec_fn(nat) -> Option<nat>,
    id: nat,
) -> (reader: nat)
    requires
        system.inv(),
        system.ordered(before),
        system.reads(id),
        system.unfinished(id),
    ensures
        system.reads(reader),
        system.unfinished(reader),
        system.ready(before, reader),
        system.reading(reader) || !system.stalled(reader),
    decreases id,
{
    if system.state.rlock is Some {
        let holder = choose|x: nat| #[trigger]
            system.reads(x) && system.reader(x).holding() && system.reader(x).me
                == system.state.rlock->0;
        assert(system.calls.contains_key(holder) && system.reading(holder));
        holder
    } else {
        assert(system.read_in_order(id));
        assert(system.calls.contains_key(id));
        if system.ready(before, id) {
            id
        } else {
            lemma_ready_reader(system, before, before(id)->0)
        }
    }
}

/// Where a call that writes is not over, there is one that is not over, has its
/// turn with its thread, and is under way or can take the lock.
proof fn lemma_ready_writer<T: Clone>(
    system: System<T>,
    before: spec_fn(nat) -> Option<nat>,
    id: nat,
) -> (writer: nat)
    requires
        system.inv(),
        system.ordered(before),
        system.writes(id),
        system.unfinished(id),
    ensures
        system.writes(writer),
        system.unfinished(writer),
        system.ready(before, writer),
        system.writing(writer) || !system.stalled(writer),
    decreases id,
{
    if system.state.wlock is Some {
        let holder = choose|x: nat| #[trigger]
            system.writes(x) && system.writer(x).holding() && system.writer(x).me
                == system.state.wlock->0;
        assert(system.calls.contains_key(holder) && system.writing(holder));
        holder
    } else {
        assert(system.written_in_order(id));
        assert(system.calls.contains_key(id));
        if system.ready(before, id) {
            let call = system.writer(id);
            let value: T = arbitrary();
            assert(system.state.write_step(call, value).1.phase != call.phase);
            id
        } else {
            lemma_ready_writer(system, before, before(id)->0)
        }
    }
}

/// Where the calls match, one of those that are not over and have their turn
/// with their thread can always go on.
pub proof fn law_matched_calls_go_on<T: Clone>(
    system: System<T>,
    before: spec_fn(nat) -> Option<nat>,
    n: nat,
    id: nat,
)
    requires
        system.inv(),
        system.counted(),
        system.numbered(n),
        system.balanced(n),
        system.ordered(before),
        system.state.ring.capacity > 0,
        system.unfinished(id),
    ensures
        exists|x: nat| #[trigger]
            system.unfinished(x) && system.ready(before, x) && !system.stalled(x),
{
    let reader_left = exists|x: nat| system.reads(x) && #[trigger] system.unfinished(x);
    let writer_left = exists|x: nat| system.writes(x) && #[trigger] system.unfinished(x);
    assert(system.reads(id) || system.writes(id));
    if reader_left && writer_left {
        let r = lemma_ready_reader(
            system,
            before,
            choose|x: nat| system.reads(x) && #[trigger] system.unfinished(x),
        );
        let w = lemma_ready_writer(
            system,
            before,
            choose|x: nat| system.writes(x) && #[trigger] system.unfinished(x),
        );
        assert(system.unfinished(r) && system.unfinished(w));
        if system.reading(r) && system.writing(w) {
            law_no_deadlock(system, r, w);
        }
    } else if reader_left {
        let r = lemma_ready_reader(
            system,
            before,
            choose|x: nat| system.reads(x) && #[trigger] system.unfinished(x),
        );
        assert forall|x: nat| #[trigger] system.writes(x) implies system.writer(x).phase is Finished by {
            assert(!system.unfinished(x));
        }
        if system.stalled(r) {
            law_stalled_is_lacking(system, r);
            if system.lacking(r) {
                lemma_reader_is_served(system, n, r);
                law_lacking_cannot_finish(system, r);
            } else {
                let other = choose|x: nat| #[trigger] system.signalling(x);
                lemma_signalling_goes_on(system, other);
                assert(system.calls.contains_key(other));
            }
        }
    } else {
        let w = lemma_ready_writer(
            system,
            before,
            choose|x: nat| system.writes(x) && #[trigger] system.unfinished(x),
        );
        assert forall|x: nat| #[trigger] system.reads(x) implies system.reader(x).phase is Finished by {
            assert(!system.unfinished(x));
        }
        if system.stalled(w) {
            law_stalled_is_lacking(system, w);
            if system.lacking(w) {
                lemma_writer_is_served(system, n, w);
                law_lacking_cannot_finish(system, w);
            } else {
                let other = choose|x: nat| #[trigger] system.signalling(x);
                lemma_signalling_goes_on(system, other);
                assert(system.calls.contains_key(other));
            }
        }
    }
}

/// What holds before a turn of what the calls are to move, and of the ring's
/// length, holds after it.
proof fn lemma_turn_keeps_terms<T: Clone>(
    pre: System<T>,
    post: System<T>,
    id: nat,
    value: T,
    before: spec_fn(nat) -> Option<nat>,
    n: nat,
)
    requires
        pre.turn(post, id, value),
        pre.ready(before, id),
        pre.numbered(n),
        pre.ample(),
        pre.balanced(n),
        pre.ordered(before),
    ensures
        post.numbered(n),
        post.ample(),
        post.balanced(n),
        post.ordered(before),
{
    assert forall|x: nat| #[trigger] post.unfinished(x) implies pre.unfinished(x) by {}
    assert forall|x: nat| #[trigger] post.calls.contains_key(x) implies {
        &&& !(post.calls[x].phase() is Locking) ==> post.ready(before, x)
        &&& before(x) matches Some(earlier) ==> {
            &&& earlier < x
            &&& post.reads(earlier) == post.reads(x)
            &&& post.writes(earlier) == post.writes(x)
        }
    } by {
        assert(pre.calls.contains_key(x));
        assert(pre.reads(x) == post.reads(x) && pre.writes(x) == post.writes(x));
        if before(x) is Some {
            let earlier = before(x)->0;
            assert(pre.reads(earlier) == post.reads(earlier));
            assert(pre.writes(earlier) == post.writes(earlier));
        }
    }
    assert forall|x: nat| #[trigger] post.calls.contains_key(x) implies x < n by {
        assert(pre.calls.contains_key(x));
    }
    assert forall|x: nat| #[trigger] post.reads(x) implies pre.reads(x) && pre.reader(x).to_read
        == post.reader(x).to_read by {}
    assert forall|x: nat| #[trigger] post.writes(x) implies pre.writes(x) && pre.writer(x).buf
        == post.writer(x).buf by {}
    assert forall|x: nat| #[trigger] pre.asked(x) == post.asked(x) by {
        assert(pre.reads(x) == post.reads(x));
    }
    assert forall|x: nat| #[trigger] pre.given(x) == post.given(x) by {
        assert(pre.writes(x) == post.writes(x));
    }
    lemma_total_update(|x: nat| pre.asked(x), |x: nat| post.asked(x), n, n);
    lemma_total_update(|x: nat| pre.given(x), |x: nat| post.given(x), n, n);
}

/// Where a call can go on, its turn changes something.
proof fn lemma_turn_of_unstalled<T: Clone>(pre: System<T>, post: System<T>, id: nat, value: T)
    requires
        pre.calls.contains_key(id),
        !pre.stalled(id),
        pre.turn(post, id, value),
    ensures
        post != pre,
{
    if post == pre {
        assert(post.calls[id] == pre.calls[id]);
        if pre.writes(id) {
            let call = pre.writer(id);
            let other = choose|other: T|
                ({
                    let (state, after, _) = #[trigger] pre.state.write_step(call, other);
                    !(state == pre.state && after == call)
                });
            assert(!pre.state.puts(call));
            assert(pre.state.write_step(call, other) == pre.state.write_step(call, value));
        }
    }
}

/// The states that a ring buffer goes through while threads make the calls that
/// they have before them, each thread one after the other. A call that a thread
/// has yet to make stands among the others and has taken no turn. `who(i)` is
/// the call that takes the turn after the `i`th state.
pub open spec fn takes_turns<T: Clone>(
    run: spec_fn(nat) -> System<T>,
    before: spec_fn(nat) -> Option<nat>,
    who: spec_fn(nat) -> nat,
) -> bool {
    forall|i: nat| #[trigger] takes_turn(run, before, who, i)
}

pub open spec fn takes_turn<T: Clone>(
    run: spec_fn(nat) -> System<T>,
    before: spec_fn(nat) -> Option<nat>,
    who: spec_fn(nat) -> nat,
    i: nat,
) -> bool {
    &&& run(i).ready(before, who(i))
    &&& exists|value: T| #[trigger] run(i).turn(run(i + 1), who(i), value)
}

/// Every thread goes on that is awake: a call that is not over, has its turn
/// with its thread and does not sleep takes a turn in the end, or goes to sleep
/// first. (It sleeps until it is signalled; a thread that sleeps is not asked to
/// do anything.)
pub open spec fn fair<T: Clone>(
    run: spec_fn(nat) -> System<T>,
    before: spec_fn(nat) -> Option<nat>,
    who: spec_fn(nat) -> nat,
) -> bool {
    forall|i: nat, id: nat| #[trigger]
        run(i).unfinished(id) && run(i).ready(before, id) && !run(i).asleep(id) ==> exists|j: nat|
            i <= j && #[trigger] comes_to(run, who, j, id)
}

/// At the `j`th state call `id` takes a turn, or sleeps.
pub open spec fn comes_to<T: Clone>(
    run: spec_fn(nat) -> System<T>,
    who: spec_fn(nat) -> nat,
    j: nat,
    id: nat,
) -> bool {
    who(j) == id || run(j).asleep(id)
}

impl<T: Clone> System<T> {
    /// All that the end of every call rests on.
    pub open spec fn well_matched(self, before: spec_fn(nat) -> Option<nat>, n: nat) -> bool {
        &&& self.inv()
        &&& self.counted()
        &&& self.numbered(n)
        &&& self.ample()
        &&& self.balanced(n)
        &&& self.ordered(before)
    }
}

/// From one state to a later one, nothing has changed or there is less to do.
proof fn lemma_work_never_grows<T: Clone>(
    run: spec_fn(nat) -> System<T>,
    before: spec_fn(nat) -> Option<nat>,
    who: spec_fn(nat) -> nat,
    n: nat,
    i: nat,
    j: nat,
)
    requires
        takes_turns(run, before, who),
        run(i).well_matched(before, n),
        i <= j,
    ensures
        run(j).well_matched(before, n),
        run(j) == run(i) || run(j).work(n) < run(i).work(n),
    decreases j - i,
{
    if i < j {
        let k = (j - 1) as nat;
        lemma_work_never_grows(run, before, who, n, i, k);
        assert(takes_turn(run, before, who, k));
        let value = choose|value: T| #[trigger] run(k).turn(run(k + 1), who(k), value);
        assert(run(k).next(run(k + 1)));
        law_next_keeps_inv(run(k), run(k + 1));
        law_next_keeps_counted(run(k), run(k + 1));
        lemma_turn_keeps_terms(run(k), run(k + 1), who(k), value, before, n);
        law_turns_get_work_done(run(k), run(k + 1), who(k), value, n);
    }
}

/// As long as a call is not over, there comes a state with less to do.
proof fn lemma_work_gets_less<T: Clone>(
    run: spec_fn(nat) -> System<T>,
    before: spec_fn(nat) -> Option<nat>,
    who: spec_fn(nat) -> nat,
    n: nat,
    i: nat,
    id: nat,
) -> (later: nat)
    requires
        takes_turns(run, before, who),
        fair(run, before, who),
        run(i).well_matched(before, n),
        run(i).unfinished(id),
    ensures
        i <= later,
        run(later).well_matched(before, n),
        run(later).work(n) < run(i).work(n),
{
    law_matched_calls_go_on(run(i), before, n, id);
    let x = choose|x: nat| #[trigger]
        run(i).unfinished(x) && run(i).ready(before, x) && !run(i).stalled(x);
    assert(!run(i).asleep(x)) by {
        if run(i).asleep(x) {
            lemma_asleep_is_stalled(run(i), x);
        }
    }
    let j = choose|j: nat| i <= j && #[trigger] comes_to(run, who, j, x);
    lemma_work_never_grows(run, before, who, n, i, j);
    if run(j).work(n) < run(i).work(n) {
        j
    } else {
        assert(run(j) == run(i));
        assert(takes_turn(run, before, who, j));
        let value = choose|value: T| #[trigger] run(j).turn(run(j + 1), who(j), value);
        lemma_turn_of_unstalled(run(j), run(j + 1), x, value);
        lemma_work_never_grows(run, before, who, n, j, j + 1);
        j + 1
    }
}

proof fn lemma_asleep_is_stalled<T: Clone>(system: System<T>, id: nat)
    requires
        system.inv(),
        system.asleep(id),
    ensures
        system.stalled(id),
{
    assert(system.parked(id));
    if system.reads(id) {
        assert(system.read_in_order(id));
    } else {
        assert(system.writes(id));
        assert(system.written_in_order(id));
    }
}

proof fn lemma_all_end_from<T: Clone>(
    run: spec_fn(nat) -> System<T>,
    before: spec_fn(nat) -> Option<nat>,
    who: spec_fn(nat) -> nat,
    n: nat,
    i: nat,
)
    requires
        takes_turns(run, before, who),
        fair(run, before, who),
        run(i).well_matched(before, n),
    ensures
        exists|j: nat| #[trigger] all_over(run(j)),
    decreases run(i).work(n),
{
    if exists|id: nat| #[trigger] run(i).unfinished(id) {
        let id = choose|id: nat| #[trigger] run(i).unfinished(id);
        let later = lemma_work_gets_less(run, before, who, n, i, id);
        lemma_all_end_from(run, before, who, n, later);
    } else {
        assert(all_over(run(i)));
    }
}

/// No call is left that is not over.
pub open spec fn all_over<T: Clone>(system: System<T>) -> bool {
    forall|id: nat| !#[trigger] system.unfinished(id)
}

/// Every call ends. Threads that only read and threads that only write have
/// calls before them, any number each, that match: enough is written for every
/// read, what is not read fits into the ring, and the ring holds as much as any
/// one of them wants to find at a time. Then, in whatever order the threads take their
/// turns, as long as every thread that is awake goes on, there comes a state in
/// which every call is over.
pub proof fn law_every_call_ends<T: Clone>(
    run: spec_fn(nat) -> System<T>,
    before: spec_fn(nat) -> Option<nat>,
    who: spec_fn(nat) -> nat,
    n: nat,
)
    requires
        run(0).inv(),
        run(0).counted(),
        run(0).numbered(n),
        run(0).ample(),
        run(0).balanced(n),
        run(0).ordered(before),
        takes_turns(run, before, who),
        fair(run, before, who),
    ensures
        exists|j: nat| #[trigger] all_over(run(j)),
{
    lemma_all_end_from(run, before, who, n, 0);
}

/// Every call ends that threads have before them on a new ring buffer: so ten
/// threads that write one value a hundred times each, and ten that read one
/// value a hundred times each, all come to their end.
pub proof fn law_threads_on_a_new_ring_end<T: Clone>(
    run: spec_fn(nat) -> System<T>,
    before: spec_fn(nat) -> Option<nat>,
    who: spec_fn(nat) -> nat,
    n: nat,
)
    requires
        run(0).state == State::<T>::empty(run(0).state.ring.capacity, run(0).state.policy),
        forall|id: nat| #[trigger]
            run(0).calls.contains_key(id) ==> id < n && run(0).calls[id].fresh(),
        run(0).ordered(before),
        run(0).ample(),
        run(0).balanced(n),
        takes_turns(run, before, who),
        fair(run, before, who),
    ensures
        exists|j: nat| #[trigger] all_over(run(j)),
{
    let system = run(0);
    lemma_fresh_calls_counted(system);
    assert(system.inv()) by {
        assert(system.state.ring.gone().len() == 0 && system.state.ring.stored().len() == 0);
        assert forall|id: nat| #[trigger] system.reads(id) implies system.read_in_order(id) by {
            assert(system.calls.contains_key(id));
        }
        assert forall|id: nat| #[trigger] system.writes(id) implies system.written_in_order(id) by {
            assert(system.calls.contains_key(id));
        }
        assert forall|id: nat| !#[trigger] system.parked(id) by {
            assert(system.calls.contains_key(id) ==> system.calls[id].fresh());
        }
    }
    law_every_call_ends(run, before, who, n);
}

} // verus!
