//! A ring buffer with all that was ever done on it, and what holds of it at all
//! times.
//!
//! A `System` is a ring buffer with every call that was ever made on it. It
//! changes when a thread makes a call and when a call takes a turn, and nothing
//! is said of who comes when: what is proved here holds of every order.

use crate::model::{least, Phase, Policy, ReadState, State, WriteState};
use crate::ring::RingView;
use vstd::prelude::*;

verus! {

/// `copies` holds a clone of each value of `values`, in the same order.
pub open spec fn all_cloned<T: Clone>(values: Seq<T>, copies: Seq<T>) -> bool {
    &&& values.len() == copies.len()
    &&& forall|i: int|
        #![trigger values[i]]
        #![trigger copies[i]]
        0 <= i < values.len() ==> cloned(values[i], copies[i])
}

/// A blocking call.
#[verifier::ext_equal]
pub enum Call<T> {
    Read(ReadState<T>),
    Write(WriteState<T>),
}

impl<T> Call<T> {
    pub open spec fn me(self) -> u64 {
        match self {
            Call::Read(c) => c.me,
            Call::Write(c) => c.me,
        }
    }

    pub open spec fn phase(self) -> Phase {
        match self {
            Call::Read(c) => c.phase,
            Call::Write(c) => c.phase,
        }
    }

    /// The call is between taking the lock of its side and giving it back.
    pub open spec fn holding(self) -> bool {
        match self {
            Call::Read(c) => c.holding(),
            Call::Write(c) => c.holding(),
        }
    }

    /// The call has only just been made.
    pub open spec fn fresh(self) -> bool {
        match self {
            Call::Read(c) => c == ReadState::<T>::start(c.me, c.to_read),
            Call::Write(c) => c == WriteState::start(c.me, c.buf),
        }
    }
}

/// A ring buffer and the calls made on it, each under a number of its own.
#[verifier::ext_equal]
pub struct System<T> {
    pub state: State<T>,
    pub calls: Map<nat, Call<T>>,
}

impl<T: Clone> System<T> {
    /// A new ring buffer, on which no call was made.
    pub open spec fn initial(capacity: nat, policy: Policy) -> System<T> {
        System { state: State::empty(capacity, policy), calls: Map::empty() }
    }

    /// A thread makes a call.
    pub open spec fn begin(self, post: System<T>, id: nat, call: Call<T>) -> bool {
        &&& !self.calls.contains_key(id)
        &&& call.fresh()
        &&& post == System { calls: self.calls.insert(id, call), ..self }
    }

    /// A call takes a turn; where it puts a value into the ring, that is `value`.
    pub open spec fn turn(self, post: System<T>, id: nat, value: T) -> bool {
        &&& self.calls.contains_key(id)
        &&& match self.calls[id] {
            Call::Read(call) => {
                let (state, after, _) = self.state.read_step(call);
                post == System { state, calls: self.calls.insert(id, Call::Read(after)) }
            },
            Call::Write(call) => {
                let (state, after, _) = self.state.write_step(call, value);
                &&& self.state.puts(call) ==> cloned(call.buf[call.have_write as int], value)
                &&& post == System { state, calls: self.calls.insert(id, Call::Write(after)) }
            },
        }
    }

    /// Thread `me` reads without waiting. The call is over at once, and stands
    /// among the others as one that was to read what it did read.
    pub open spec fn read(self, post: System<T>, id: nat, me: u64, amt: nat) -> bool {
        let (state, values, _) = self.state.try_read(amt);
        let from = if values.len() == 0 {
            0
        } else {
            self.state.ring.gone().len()
        };
        &&& !self.calls.contains_key(id)
        &&& post == System {
            state,
            calls: self.calls.insert(id, Call::Read(ReadState::over(me, values, from))),
        }
    }

    /// One thing happens.
    pub open spec fn next(self, post: System<T>) -> bool {
        ||| exists|id: nat, call: Call<T>| self.begin(post, id, call)
        ||| exists|id: nat, value: T| self.turn(post, id, value)
        ||| exists|id: nat, me: u64, amt: nat| self.read(post, id, me, amt)
    }

    /// Call `id` reads.
    pub open spec fn reads(self, id: nat) -> bool {
        self.calls.contains_key(id) && self.calls[id] is Read
    }

    /// Call `id` writes.
    pub open spec fn writes(self, id: nat) -> bool {
        self.calls.contains_key(id) && self.calls[id] is Write
    }

    pub open spec fn reader(self, id: nat) -> ReadState<T> {
        self.calls[id]->Read_0
    }

    pub open spec fn writer(self, id: nat) -> WriteState<T> {
        self.calls[id]->Write_0
    }

    /// Call `id` sleeps.
    pub open spec fn parked(self, id: nat) -> bool {
        self.calls.contains_key(id) && self.calls[id].phase() is Parked
    }

    /// Call `id` sleeps and nobody has signalled it.
    pub open spec fn asleep(self, id: nat) -> bool {
        self.parked(id) && self.state.waiting == Some((true, self.calls[id].me()))
    }

    /// Call `id` is about to signal whoever sleeps.
    pub open spec fn signalling(self, id: nat) -> bool {
        self.calls.contains_key(id) && self.calls[id].phase() is Signalling
    }

    /// Call `id` has to wait for values, or for free slots.
    pub open spec fn lacking(self, id: nat) -> bool {
        match self.calls[id] {
            Call::Read(call) => self.state.ring.used() < call.need(self.state.policy),
            Call::Write(call) => self.state.ring.room() < call.need(self.state.policy),
        }
    }

    /// What call `id` has read stands in one piece in what was taken out of the
    /// ring, at the end of it as long as the call is under way; and the values
    /// that it still means to move are there.
    pub open spec fn read_in_order(self, id: nat) -> bool {
        let call = self.reader(id);
        let ring = self.state.ring;
        let end = call.from + call.ret.len();
        &&& call.ret.len() <= call.to_read && call.goal <= call.to_read
        &&& call.phase is Locking ==> call.ret.len() == 0
        &&& call.phase is Finished ==> call.ret.len() == call.to_read
        &&& call.phase is Parked || call.phase is Resumed ==> call.missing() > 0
        &&& call.phase is Moving ==> 0 <= call.goal - call.ret.len() <= ring.contents.len()
        &&& !(call.phase is Locking) ==> end <= ring.gone().len() && call.ret
            == ring.gone().subrange(call.from as int, end as int)
        &&& call.holding() ==> end == ring.gone().len() && self.state.rlock == Some(call.me)
        &&& call.holding() && !(call.phase is Moving) ==> ring.leaving.len() == 0
    }

    /// What call `id` has written stands in one piece in what was put into the
    /// ring, at the end of it as long as the call is under way, and there to be
    /// read once it is over; and the slots that it still means to fill are free.
    pub open spec fn written_in_order(self, id: nat) -> bool {
        let call = self.writer(id);
        let ring = self.state.ring;
        let end = call.from + call.have_write;
        &&& call.have_write <= call.buf.len() && call.goal <= call.buf.len()
        &&& call.phase is Locking ==> call.have_write == 0
        &&& call.phase is Finished ==> call.have_write == call.buf.len() && (call.buf.len() > 0
            ==> end + ring.coming.len() <= ring.stored().len())
        &&& call.phase is Parked || call.phase is Resumed ==> call.missing() > 0
        &&& call.phase is Moving ==> 0 <= call.goal - call.have_write <= ring.room()
            - ring.coming.len()
        &&& !(call.phase is Locking) ==> end <= ring.stored().len() && all_cloned(
            call.buf.take(call.have_write as int),
            ring.stored().subrange(call.from as int, end as int),
        )
        &&& call.holding() ==> end == ring.stored().len() && self.state.wlock == Some(call.me)
        &&& call.holding() && !(call.phase is Moving) ==> ring.coming.len() == 0
    }

    /// Position `p` of the stream of all that was taken out went to call `id`.
    pub open spec fn read_by(self, p: int, id: nat) -> bool {
        &&& self.reads(id)
        &&& !(self.reader(id).phase is Locking)
        &&& self.reader(id).from <= p < self.reader(id).from + self.reader(id).ret.len()
    }

    /// Position `p` of the stream of all that was put in came from call `id`.
    pub open spec fn written_by(self, p: int, id: nat) -> bool {
        &&& self.writes(id)
        &&& !(self.writer(id).phase is Locking)
        &&& self.writer(id).from <= p < self.writer(id).from + self.writer(id).have_write
    }

    /// Position `p` of the stream of all that was taken out went to some call.
    pub open spec fn read_at(self, p: int) -> bool {
        exists|id: nat| self.read_by(p, id)
    }

    /// Position `p` of the stream of all that was put in came from some call.
    pub open spec fn written_at(self, p: int) -> bool {
        exists|id: nat| self.written_by(p, id)
    }

    /// All that one of the calls `a` and `b` has read was taken out of the ring
    /// before all that the other has read.
    pub open spec fn reads_apart(self, a: nat, b: nat) -> bool {
        let (a, b) = (self.reader(a), self.reader(b));
        ||| a.phase is Locking
        ||| b.phase is Locking
        ||| a.from + a.ret.len() <= b.from
        ||| b.from + b.ret.len() <= a.from
    }

    /// All that one of the calls `a` and `b` has written was put into the ring
    /// before all that the other has written.
    pub open spec fn writes_apart(self, a: nat, b: nat) -> bool {
        let (a, b) = (self.writer(a), self.writer(b));
        ||| a.have_write == 0
        ||| b.have_write == 0
        ||| a.from + a.have_write <= b.from
        ||| b.from + b.have_write <= a.from
    }

    /// Everything that the ring buffer promises of one state.
    pub open spec fn inv(self) -> bool {
        &&& self.state.ring.used() + self.state.ring.coming.len() <= self.state.ring.capacity
        &&& self.inv_reads()
        &&& self.inv_writes()
        &&& self.inv_sleep()
    }

    /// What holds of the calls that read.
    pub open spec fn inv_reads(self) -> bool {
        &&& forall|id: nat| #[trigger] self.reads(id) ==> self.read_in_order(id)
        &&& forall|a: nat, b: nat| #[trigger]
            self.reads(a) && #[trigger] self.reads(b) && a != b ==> self.reads_exclude(a, b)
        &&& forall|p: int| 0 <= p < self.state.ring.gone().len() ==> #[trigger] self.read_at(p)
        &&& match self.state.rlock {
            Some(thread) => exists|id: nat| #[trigger]
                self.reads(id) && self.reader(id).holding() && self.reader(id).me == thread,
            None => self.state.ring.leaving.len() == 0,
        }
    }

    /// Of two calls only one is under way, and they read apart.
    pub open spec fn reads_exclude(self, a: nat, b: nat) -> bool {
        &&& !(self.reader(a).holding() && self.reader(b).holding())
        &&& self.reads_apart(a, b)
        &&& self.reader(b).holding() && !(self.reader(a).phase is Locking) ==> self.reader(a).from
            + self.reader(a).ret.len() <= self.reader(b).from
    }

    /// What holds of the calls that write.
    pub open spec fn inv_writes(self) -> bool {
        &&& forall|id: nat| #[trigger] self.writes(id) ==> self.written_in_order(id)
        &&& forall|a: nat, b: nat| #[trigger]
            self.writes(a) && #[trigger] self.writes(b) && a != b ==> self.writes_exclude(a, b)
        &&& forall|p: int| 0 <= p < self.state.ring.stored().len() ==> #[trigger] self.written_at(p)
        &&& match self.state.wlock {
            Some(thread) => exists|id: nat| #[trigger]
                self.writes(id) && self.writer(id).holding() && self.writer(id).me == thread,
            None => self.state.ring.coming.len() == 0,
        }
    }

    /// Of two calls only one is under way, and they write apart.
    pub open spec fn writes_exclude(self, a: nat, b: nat) -> bool {
        &&& !(self.writer(a).holding() && self.writer(b).holding())
        &&& self.writes_apart(a, b)
        &&& self.writer(b).holding() && self.writer(a).have_write > 0 ==> self.writer(a).from
            + self.writer(a).have_write <= self.writer(b).from
    }

    /// What holds of the calls that sleep: there is one at most, it is the one
    /// that is registered, and as long as nobody has signalled it, or is about
    /// to, there is nothing for it.
    pub open spec fn inv_sleep(self) -> bool {
        &&& forall|id: nat| #[trigger]
            self.parked(id) ==> self.state.waiter() == Some(self.calls[id].me())
        &&& forall|a: nat, b: nat| #[trigger]
            self.parked(a) && #[trigger] self.parked(b) ==> a == b
        &&& self.state.waiter() is Some ==> exists|id: nat| #[trigger] self.parked(id)
        &&& forall|id: nat| #[trigger]
            self.asleep(id) && !self.lacking(id) ==> exists|other: nat| #[trigger]
                self.signalling(other)
        &&& self.state.policy is Spin ==> self.state.waiting is None
    }
}

/// The states that a ring buffer goes through from its making on.
pub open spec fn is_run<T: Clone>(capacity: nat, policy: Policy, run: Seq<System<T>>) -> bool {
    &&& run.len() > 0
    &&& run[0] == System::<T>::initial(capacity, policy)
    &&& forall|i: int| #![trigger run[i]] 0 < i < run.len() ==> run[i - 1].next(run[i])
}

proof fn lemma_begin_keeps_inv<T: Clone>(pre: System<T>, post: System<T>, id: nat, call: Call<T>)
    requires
        pre.inv(),
        pre.begin(post, id, call),
    ensures
        post.inv(),
{
    assert forall|x: nat| post.reads(x) && x != id implies pre.reads(x) by {}
    assert forall|x: nat| post.writes(x) && x != id implies pre.writes(x) by {}
    assert forall|x: nat| post.parked(x) implies pre.parked(x) by {}
    assert forall|x: nat| pre.reads(x) implies post.reads(x) && post.reader(x) == pre.reader(x) by {}
    assert forall|x: nat| pre.writes(x) implies post.writes(x) && post.writer(x) == pre.writer(x) by {}
    assert forall|x: nat| pre.parked(x) implies post.parked(x) by {}
    assert forall|x: nat| #[trigger] post.reads(x) implies post.read_in_order(x) by {
        if x != id {
            assert(pre.read_in_order(x));
        }
    }
    assert forall|x: nat| #[trigger] post.writes(x) implies post.written_in_order(x) by {
        if x != id {
            assert(pre.written_in_order(x));
        }
    }
    assert forall|p: int| 0 <= p < post.state.ring.gone().len() implies #[trigger] post.read_at(p) by {
        assert(pre.read_at(p));
        let x = choose|x: nat| pre.read_by(p, x);
        assert(post.reads(x) && post.read_by(p, x));
    }
    assert forall|p: int| 0 <= p < post.state.ring.stored().len() implies #[trigger] post.written_at(
        p,
    ) by {
        assert(pre.written_at(p));
        let x = choose|x: nat| pre.written_by(p, x);
        assert(post.writes(x) && post.written_by(p, x));
    }
    assert forall|x: nat| #[trigger] post.asleep(x) && !post.lacking(x) implies exists|y: nat| #[trigger]
        post.signalling(y) by {
        assert(pre.asleep(x) && !pre.lacking(x));
        let y = choose|y: nat| #[trigger] pre.signalling(y);
        assert(post.signalling(y));
    }
}

/// Values that go out are no new values, and go out in the order in which they came in.
pub proof fn lemma_take_keeps_stored<T>(ring: RingView<T>, n: int)
    requires
        0 <= n <= ring.contents.len(),
    ensures
        ring.after_take(n).stored() == ring.stored(),
        ring.after_take(n).gone() == ring.gone() + ring.contents.take(n),
{
    assert(ring.after_take(n).stored() =~= ring.stored());
    assert(ring.after_take(n).gone() =~= ring.gone() + ring.contents.take(n));
}

/// Giving slots back changes no value.
pub proof fn lemma_give_back_keeps_stored<T>(ring: RingView<T>)
    ensures
        ring.given_back().stored() == ring.stored(),
        ring.given_back().gone() == ring.gone(),
{
    assert(ring.given_back().gone() =~= ring.gone());
    assert(ring.given_back().stored() =~= ring.stored());
}

/// A value that comes in comes behind all that came before.
pub proof fn lemma_put_extends_stored<T>(ring: RingView<T>, value: T)
    ensures
        ring.after_put(value).stored() == ring.stored().push(value),
{
    assert(ring.after_put(value).stored() =~= ring.stored().push(value));
}

/// Showing values changes none.
pub proof fn lemma_show_keeps_stored<T>(ring: RingView<T>)
    ensures
        ring.shown().stored() == ring.stored(),
{
    assert(ring.shown().stored() =~= ring.stored());
}

/// A change that leaves the writers alone, and takes no free slot from them,
/// keeps what holds of them.
proof fn lemma_writers_unmoved<T: Clone>(pre: System<T>, post: System<T>)
    requires
        pre.inv_writes(),
        post.state.ring.stored() == pre.state.ring.stored(),
        post.state.ring.coming == pre.state.ring.coming,
        post.state.ring.room() >= pre.state.ring.room(),
        post.state.wlock == pre.state.wlock,
        forall|x: nat| #[trigger] post.writes(x) == pre.writes(x),
        forall|x: nat| #[trigger] post.writes(x) ==> post.writer(x) == pre.writer(x),
    ensures
        post.inv_writes(),
{
    assert forall|x: nat| #[trigger] post.writes(x) implies post.written_in_order(x) by {
        assert(pre.writes(x) && pre.written_in_order(x));
    }
    assert forall|a: nat, b: nat| #[trigger]
        post.writes(a) && #[trigger] post.writes(b) && a != b implies post.writes_exclude(a, b) by {
        assert(pre.writes(a) && pre.writes(b));
        assert(pre.writes_exclude(a, b));
    }
    assert forall|p: int| 0 <= p < post.state.ring.stored().len() implies #[trigger] post.written_at(
        p,
    ) by {
        assert(pre.written_at(p));
        let x = choose|x: nat| pre.written_by(p, x);
        assert(post.writes(x) && post.written_by(p, x));
    }
    if post.state.wlock is Some {
        let holder = choose|x: nat| #[trigger]
            pre.writes(x) && pre.writer(x).holding() && pre.writer(x).me
                == pre.state.wlock->0;
        assert(post.writes(holder));
    }
}

/// A change that leaves the readers alone, and takes no value from them, keeps
/// what holds of them.
proof fn lemma_readers_unmoved<T: Clone>(pre: System<T>, post: System<T>)
    requires
        pre.inv_reads(),
        post.state.ring.taken == pre.state.ring.taken,
        post.state.ring.leaving == pre.state.ring.leaving,
        post.state.ring.contents.len() >= pre.state.ring.contents.len(),
        post.state.rlock == pre.state.rlock,
        forall|x: nat| #[trigger] post.reads(x) == pre.reads(x),
        forall|x: nat| #[trigger] post.reads(x) ==> post.reader(x) == pre.reader(x),
    ensures
        post.inv_reads(),
{
    assert forall|x: nat| #[trigger] post.reads(x) implies post.read_in_order(x) by {
        assert(pre.reads(x) && pre.read_in_order(x));
    }
    assert forall|a: nat, b: nat| #[trigger]
        post.reads(a) && #[trigger] post.reads(b) && a != b implies post.reads_exclude(a, b) by {
        assert(pre.reads(a) && pre.reads(b));
        assert(pre.reads_exclude(a, b));
    }
    assert forall|p: int| 0 <= p < post.state.ring.gone().len() implies #[trigger] post.read_at(p) by {
        assert(pre.read_at(p));
        let x = choose|x: nat| pre.read_by(p, x);
        assert(post.reads(x) && post.read_by(p, x));
    }
    if post.state.rlock is Some {
        let holder = choose|x: nat| #[trigger]
            pre.reads(x) && pre.reader(x).holding() && pre.reader(x).me == pre.state.rlock->0;
        assert(post.reads(holder));
    }
}

/// What a reader has stays where it is in what was taken out, when more is.
proof fn lemma_gone_grows<T: Clone>(pre: System<T>, post: System<T>, x: nat)
    requires
        pre.read_in_order(x),
        !pre.reader(x).holding(),
        post.reader(x) == pre.reader(x),
        pre.state.ring.gone().len() <= post.state.ring.gone().len(),
        post.state.ring.gone().take(pre.state.ring.gone().len() as int) == pre.state.ring.gone(),
    ensures
        post.read_in_order(x),
{
    let c = pre.reader(x);
    let (gone, more) = (pre.state.ring.gone(), post.state.ring.gone());
    if !(c.phase is Locking) {
        let end = (c.from + c.ret.len()) as int;
        assert(more.subrange(c.from as int, end) =~= more.take(gone.len() as int).subrange(
            c.from as int,
            end,
        ));
    }
}

/// What a writer has written stays where it is in what was put in, when more is.
proof fn lemma_stored_grows<T: Clone>(pre: System<T>, post: System<T>, x: nat)
    requires
        pre.written_in_order(x),
        !pre.writer(x).holding(),
        post.writer(x) == pre.writer(x),
        pre.state.ring.stored().len() - pre.state.ring.coming.len()
            <= post.state.ring.stored().len() - post.state.ring.coming.len(),
        pre.state.ring.stored().len() <= post.state.ring.stored().len(),
        post.state.ring.stored().take(pre.state.ring.stored().len() as int)
            == pre.state.ring.stored(),
    ensures
        post.written_in_order(x),
{
    let c = pre.writer(x);
    let (stored, more) = (pre.state.ring.stored(), post.state.ring.stored());
    if !(c.phase is Locking) {
        let end = (c.from + c.have_write) as int;
        assert(more.subrange(c.from as int, end) =~= more.take(stored.len() as int).subrange(
            c.from as int,
            end,
        ));
    }
}

proof fn lemma_read_turn_keeps_reads<T: Clone>(pre: System<T>, post: System<T>, id: nat, value: T)
    requires
        pre.inv(),
        pre.reads(id),
        pre.turn(post, id, value),
    ensures
        post.inv_reads(),
{
    let call = pre.reader(id);
    let after = post.reader(id);
    let ring = pre.state.ring;
    assert(pre.read_in_order(id));
    assert(post.reads(id));
    if call.phase is Moving {
        if ring.contents.len() > 0 {
            lemma_take_keeps_stored(ring, 1);
        }
        lemma_give_back_keeps_stored(ring);
    }
    assert(post.state.ring.gone().take(ring.gone().len() as int) =~= ring.gone());
    assert(post.read_in_order(id)) by {
        if !(after.phase is Locking) {
            assert(after.ret =~= post.state.ring.gone().subrange(
                after.from as int,
                (after.from + after.ret.len()) as int,
            ));
        }
    }
    assert forall|x: nat| post.reads(x) && x != id implies pre.reads(x) && post.reader(x)
        == pre.reader(x) by {}
    assert forall|x: nat| #[trigger] post.reads(x) implies post.read_in_order(x) by {
        if x != id {
            assert(pre.reads(x) && pre.reads(id));
            assert(pre.reads_exclude(x, id));
            assert(pre.read_in_order(x));
            if pre.reader(x).holding() {
                assert(post.state.ring == pre.state.ring);
            } else {
                lemma_gone_grows(pre, post, x);
            }
        }
    }
    assert forall|a: nat, b: nat| #[trigger]
        post.reads(a) && #[trigger] post.reads(b) && a != b implies post.reads_exclude(a, b) by {
        assert(pre.reads(a) && pre.reads(b));
        assert(pre.reads_exclude(a, b) && pre.reads_exclude(b, a));
        assert(pre.read_in_order(a) && pre.read_in_order(b));
    }
    assert forall|p: int| 0 <= p < post.state.ring.gone().len() implies #[trigger] post.read_at(p) by {
        if p < ring.gone().len() {
            assert(pre.read_at(p));
            let x = choose|x: nat| pre.read_by(p, x);
            assert(post.reads(x) && post.read_by(p, x));
        } else {
            assert(post.read_by(p, id));
        }
    }
    if post.state.rlock is Some && pre.state.rlock is Some {
        let holder = choose|x: nat| #[trigger]
            pre.reads(x) && pre.reader(x).holding() && pre.reader(x).me == pre.state.rlock->0;
        assert(post.reads(holder));
    }
}

proof fn lemma_write_turn_keeps_writes<T: Clone>(pre: System<T>, post: System<T>, id: nat, value: T)
    requires
        pre.inv(),
        pre.writes(id),
        pre.turn(post, id, value),
    ensures
        post.inv_writes(),
        post.state.ring.used() + post.state.ring.coming.len() <= post.state.ring.capacity,
{
    let call = pre.writer(id);
    let after = post.writer(id);
    let ring = pre.state.ring;
    assert(pre.written_in_order(id));
    assert(post.writes(id));
    if call.phase is Moving {
        lemma_put_extends_stored(ring, value);
        lemma_show_keeps_stored(ring);
    }
    assert(post.state.ring.stored().take(ring.stored().len() as int) =~= ring.stored());
    assert(post.written_in_order(id)) by {
        if !(after.phase is Locking) {
            let end = (after.from + after.have_write) as int;
            let block = post.state.ring.stored().subrange(after.from as int, end);
            if pre.state.puts(call) {
                assert(after.buf.take(after.have_write as int) =~= call.buf.take(
                    call.have_write as int,
                ).push(call.buf[call.have_write as int]));
                assert(block =~= ring.stored().subrange(
                    call.from as int,
                    ring.stored().len() as int,
                ).push(value));
            } else if call.phase is Locking {
                assert(block.len() == 0);
            } else {
                assert(block =~= ring.stored().subrange(call.from as int, end));
            }
            assert(all_cloned(after.buf.take(after.have_write as int), block));
        }
    }
    assert forall|x: nat| post.writes(x) && x != id implies pre.writes(x) && post.writer(x)
        == pre.writer(x) by {}
    assert forall|x: nat| #[trigger] post.writes(x) implies post.written_in_order(x) by {
        if x != id {
            assert(pre.writes(x) && pre.writes(id));
            assert(pre.writes_exclude(x, id));
            assert(pre.written_in_order(x));
            if pre.writer(x).holding() {
                assert(post.state.ring == pre.state.ring);
            } else {
                lemma_stored_grows(pre, post, x);
            }
        }
    }
    assert forall|a: nat, b: nat| #[trigger]
        post.writes(a) && #[trigger] post.writes(b) && a != b implies post.writes_exclude(a, b) by {
        assert(pre.writes(a) && pre.writes(b));
        assert(pre.writes_exclude(a, b) && pre.writes_exclude(b, a));
        assert(pre.written_in_order(a) && pre.written_in_order(b));
    }
    assert forall|p: int| 0 <= p < post.state.ring.stored().len() implies #[trigger] post.written_at(
        p,
    ) by {
        if p < ring.stored().len() {
            assert(pre.written_at(p));
            let x = choose|x: nat| pre.written_by(p, x);
            assert(post.writes(x) && post.written_by(p, x));
        } else {
            assert(post.written_by(p, id));
        }
    }
    if post.state.wlock is Some && pre.state.wlock is Some {
        let holder = choose|x: nat| #[trigger]
            pre.writes(x) && pre.writer(x).holding() && pre.writer(x).me == pre.state.wlock->0;
        assert(post.writes(holder));
    }
}

proof fn lemma_turn_keeps_sleep<T: Clone>(pre: System<T>, post: System<T>, id: nat, value: T)
    requires
        pre.inv(),
        pre.turn(post, id, value),
    ensures
        post.inv_sleep(),
{
    assert forall|x: nat| x != id implies (#[trigger] post.parked(x) <==> pre.parked(x)) by {}
    assert forall|x: nat| x != id implies (#[trigger] post.signalling(x) <==> pre.signalling(x)) by {}
    if pre.reads(id) {
        assert(pre.read_in_order(id));
    } else {
        assert(pre.writes(id));
        assert(pre.written_in_order(id));
    }
    assert(pre.parked(id) ==> pre.state.waiter() == Some(pre.calls[id].me()));
    assert forall|x: nat| #[trigger] post.parked(x) implies post.state.waiter() == Some(
        post.calls[x].me(),
    ) by {
        if x != id {
            assert(pre.parked(x));
            assert(pre.parked(id) ==> x == id);
        }
    }
    assert forall|a: nat, b: nat| #[trigger] post.parked(a) && #[trigger] post.parked(b) implies a
        == b by {
        if a != b {
            assert(a != id ==> pre.parked(a));
            assert(b != id ==> pre.parked(b));
            assert(pre.parked(id) || pre.state.waiter() is None);
        }
    }
    if post.state.waiter() is Some {
        if pre.state.waiter() is Some {
            let sleeper = choose|x: nat| #[trigger] pre.parked(x);
            assert(post.parked(sleeper));
        } else {
            assert(post.parked(id));
        }
    }
    assert forall|x: nat| #[trigger] post.asleep(x) && !post.lacking(x) implies exists|y: nat| #[trigger]
        post.signalling(y) by {
        assert(post.parked(x));
        if post.signalling(id) {
        } else {
            assert(x == id || pre.parked(x));
            assert(pre.asleep(x));
            assert(!pre.lacking(x));
            let y = choose|y: nat| #[trigger] pre.signalling(y);
            assert(post.signalling(y));
        }
    }
}

proof fn lemma_turn_keeps_inv<T: Clone>(pre: System<T>, post: System<T>, id: nat, value: T)
    requires
        pre.inv(),
        pre.turn(post, id, value),
    ensures
        post.inv(),
{
    lemma_turn_keeps_sleep(pre, post, id, value);
    assert forall|x: nat| x != id implies (#[trigger] post.reads(x) <==> pre.reads(x)) by {}
    assert forall|x: nat| x != id implies (#[trigger] post.writes(x) <==> pre.writes(x)) by {}
    if pre.reads(id) {
        assert(pre.read_in_order(id));
        if pre.state.ring.contents.len() > 0 {
            lemma_take_keeps_stored(pre.state.ring, 1);
        }
        lemma_give_back_keeps_stored(pre.state.ring);
        lemma_read_turn_keeps_reads(pre, post, id, value);
        lemma_writers_unmoved(pre, post);
    } else {
        assert(pre.writes(id));
        lemma_write_turn_keeps_writes(pre, post, id, value);
        lemma_readers_unmoved(pre, post);
    }
}

proof fn lemma_read_keeps_inv<T: Clone>(
    pre: System<T>,
    post: System<T>,
    id: nat,
    me: u64,
    amt: nat,
)
    requires
        pre.inv(),
        pre.read(post, id, me, amt),
    ensures
        post.inv(),
{
    let ring = pre.state.ring;
    let n = least(ring.contents.len() as int, amt as int);
    lemma_take_keeps_stored(ring, n);
    lemma_give_back_keeps_stored(ring.after_take(n));
    lemma_writers_unmoved(pre, post);
    assert(post.state.ring.gone().take(ring.gone().len() as int) =~= ring.gone());
    assert(post.reads(id));
    assert(post.read_in_order(id)) by {
        let call = post.reader(id);
        assert(call.ret =~= post.state.ring.gone().subrange(
            call.from as int,
            (call.from + call.ret.len()) as int,
        ));
    }
    assert forall|x: nat| post.reads(x) && x != id implies pre.reads(x) && post.reader(x)
        == pre.reader(x) by {}
    assert forall|x: nat| #[trigger] post.reads(x) implies post.read_in_order(x) by {
        if x != id {
            assert(pre.reads(x));
            assert(pre.read_in_order(x));
            if pre.reader(x).holding() {
                assert(post.state == pre.state);
            } else {
                lemma_gone_grows(pre, post, x);
            }
        }
    }
    assert forall|a: nat, b: nat| #[trigger]
        post.reads(a) && #[trigger] post.reads(b) && a != b implies post.reads_exclude(a, b) by {
        assert(a != id ==> pre.reads(a) && pre.read_in_order(a));
        assert(b != id ==> pre.reads(b) && pre.read_in_order(b));
        if a != id && b != id {
            assert(pre.reads_exclude(a, b));
        }
    }
    assert forall|p: int| 0 <= p < post.state.ring.gone().len() implies #[trigger] post.read_at(p) by {
        if p < ring.gone().len() {
            assert(pre.read_at(p));
            let x = choose|x: nat| pre.read_by(p, x);
            assert(post.reads(x) && post.read_by(p, x));
        } else {
            assert(post.read_by(p, id));
        }
    }
    if post.state.rlock is Some {
        let holder = choose|x: nat| #[trigger]
            pre.reads(x) && pre.reader(x).holding() && pre.reader(x).me == pre.state.rlock->0;
        assert(post.reads(holder));
    }
    assert forall|x: nat| #[trigger] post.parked(x) implies pre.parked(x) by {}
    if post.state.waiter() is Some {
        let sleeper = choose|x: nat| #[trigger] pre.parked(x);
        assert(post.parked(sleeper));
    }
    assert forall|x: nat| #[trigger] post.asleep(x) && !post.lacking(x) implies exists|y: nat| #[trigger]
        post.signalling(y) by {
        assert(post.parked(x));
        assert(post.state == pre.state);
        assert(pre.asleep(x) && !pre.lacking(x));
        let y = choose|y: nat| #[trigger] pre.signalling(y);
        assert(post.signalling(y));
    }
}

/// Whatever happens next, the promises are kept.
pub proof fn law_next_keeps_inv<T: Clone>(pre: System<T>, post: System<T>)
    requires
        pre.inv(),
        pre.next(post),
    ensures
        post.inv(),
{
    if exists|id: nat, call: Call<T>| pre.begin(post, id, call) {
        let (id, call) = choose|id: nat, call: Call<T>| pre.begin(post, id, call);
        lemma_begin_keeps_inv(pre, post, id, call);
    } else if exists|id: nat, value: T| pre.turn(post, id, value) {
        let (id, value) = choose|id: nat, value: T| pre.turn(post, id, value);
        lemma_turn_keeps_inv(pre, post, id, value);
    } else {
        let (id, me, amt) = choose|id: nat, me: u64, amt: nat| pre.read(post, id, me, amt);
        lemma_read_keeps_inv(pre, post, id, me, amt);
    }
}

/// The promises hold in every state that a ring buffer goes through, in
/// whatever order its threads make their calls and take their turns.
///
/// Such a ring buffer is one on which turns, and `read`, alone use `wait` and
/// `unpark_thread`: to call these directly is no step of a run.
pub proof fn law_inv_holds_throughout<T: Clone>(
    capacity: nat,
    policy: Policy,
    run: Seq<System<T>>,
    i: int,
)
    requires
        is_run(capacity, policy, run),
        0 <= i < run.len(),
    ensures
        run[i].inv(),
    decreases i,
{
    if i > 0 {
        law_inv_holds_throughout(capacity, policy, run, i - 1);
        assert(run[i - 1].next(run[i]));
        law_next_keeps_inv(run[i - 1], run[i]);
    }
}

} // verus!
