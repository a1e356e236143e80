//! What the ring buffer promises, whatever the threads that use it do.

use crate::model::{least, Action};
use crate::system::{
    all_cloned, lemma_give_back_keeps_stored, lemma_put_extends_stored, lemma_show_keeps_stored,
    lemma_take_keeps_stored, Call, System,
};
use vstd::prelude::*;

verus! {

/// The ring buffer never holds more values than its capacity, whatever the
/// readers and the writers have under way.
pub proof fn law_never_over_capacity<T: Clone>(system: System<T>)
    requires
        system.inv(),
    ensures
        system.state.ring.contents.len() <= system.state.ring.capacity,
        system.state.ring.used() + system.state.ring.coming.len() <= system.state.ring.capacity,
{
}

/// First in, first out: what a call has read is a piece of the stream of all
/// that was ever put in, in that order; and a call that is over has read as much
/// as it was asked for.
pub proof fn law_first_in_first_out<T: Clone>(system: System<T>, id: nat)
    requires
        system.inv(),
        system.reads(id),
        !(system.reader(id).phase is Locking),
    ensures
        ({
            let call = system.reader(id);
            let end = (call.from + call.ret.len()) as int;
            &&& end <= system.state.ring.stored().len()
            &&& call.ret == system.state.ring.stored().subrange(call.from as int, end)
            &&& call.phase is Finished ==> call.ret.len() == call.to_read
        }),
{
    assert(system.read_in_order(id));
    let call = system.reader(id);
    let end = (call.from + call.ret.len()) as int;
    assert(system.state.ring.gone().subrange(call.from as int, end)
        =~= system.state.ring.stored().subrange(call.from as int, end));
}

/// What a call has written stands in one piece, in its order, in the stream of
/// all that was ever put in: no value of another call is in between. Once the
/// call is over, all that it was given is there, and is there to be read.
pub proof fn law_writes_stay_together<T: Clone>(system: System<T>, id: nat)
    requires
        system.inv(),
        system.writes(id),
        !(system.writer(id).phase is Locking),
    ensures
        ({
            let call = system.writer(id);
            let ring = system.state.ring;
            let end = (call.from + call.have_write) as int;
            &&& end <= ring.stored().len()
            &&& all_cloned(
                call.buf.take(call.have_write as int),
                ring.stored().subrange(call.from as int, end),
            )
            &&& call.phase is Finished && call.buf.len() > 0 ==> {
                &&& end <= ring.gone().len() + ring.contents.len()
                &&& all_cloned(call.buf, ring.stored().subrange(call.from as int, end))
            }
        }),
{
    assert(system.written_in_order(id));
    let call = system.writer(id);
    if call.phase is Finished {
        assert(call.buf.take(call.have_write as int) =~= call.buf);
    }
}

/// No position of the stream was written by two calls.
pub proof fn law_writes_do_not_interleave<T: Clone>(system: System<T>, a: nat, b: nat)
    requires
        system.inv(),
        system.writes(a),
        system.writes(b),
        a != b,
    ensures
        system.writes_apart(a, b),
{
    assert(system.writes_exclude(a, b));
}

/// No position of the stream was read by two calls.
pub proof fn law_reads_do_not_interleave<T: Clone>(system: System<T>, a: nat, b: nat)
    requires
        system.inv(),
        system.reads(a),
        system.reads(b),
        a != b,
    ensures
        system.reads_apart(a, b),
{
    assert(system.reads_exclude(a, b));
}

/// Of the calls that read only one is under way at a time, and of those that write.
pub proof fn law_one_reader_and_one_writer<T: Clone>(system: System<T>, a: nat, b: nat)
    requires
        system.inv(),
        a != b,
    ensures
        system.reads(a) && system.reads(b) ==> !(system.reader(a).holding() && system.reader(
            b,
        ).holding()),
        system.writes(a) && system.writes(b) ==> !(system.writer(a).holding() && system.writer(
            b,
        ).holding()),
{
    if system.reads(a) && system.reads(b) {
        assert(system.reads_exclude(a, b));
    }
    if system.writes(a) && system.writes(b) {
        assert(system.writes_exclude(a, b));
    }
}

/// A read gives back what a write wrote: where a position of the stream was
/// written by the one call and read by the other, the value that was read is a
/// clone of the value that was given to be written.
pub proof fn law_read_returns_what_was_written<T: Clone>(
    system: System<T>,
    reader: nat,
    writer: nat,
    position: int,
)
    requires
        system.inv(),
        system.reads(reader),
        system.writes(writer),
        !(system.reader(reader).phase is Locking),
        !(system.writer(writer).phase is Locking),
        system.reader(reader).from <= position < system.reader(reader).from + system.reader(
            reader,
        ).ret.len(),
        system.writer(writer).from <= position < system.writer(writer).from + system.writer(
            writer,
        ).have_write,
    ensures
        cloned(
            system.writer(writer).buf[position - system.writer(writer).from],
            system.reader(reader).ret[position - system.reader(reader).from],
        ),
{
    law_first_in_first_out(system, reader);
    law_writes_stay_together(system, writer);
    let (r, w) = (system.reader(reader), system.writer(writer));
    let stored = system.state.ring.stored();
    assert(r.ret[position - r.from] == stored[position]);
    let block = stored.subrange(w.from as int, (w.from + w.have_write) as int);
    assert(block[position - w.from] == stored[position]);
    assert(w.buf.take(w.have_write as int)[position - w.from] == w.buf[position - w.from]);
}

/// No value comes from nowhere, and none comes twice: every position of the
/// stream of all that was put in was written by one call, and by one only.
pub proof fn law_every_position_written_once<T: Clone>(system: System<T>, p: int)
    requires
        system.inv(),
        0 <= p < system.state.ring.stored().len(),
    ensures
        exists|id: nat| system.written_by(p, id),
        forall|a: nat, b: nat| system.written_by(p, a) && system.written_by(p, b) ==> a == b,
{
    assert(system.written_at(p));
    assert forall|a: nat, b: nat| system.written_by(p, a) && system.written_by(p, b) implies a
        == b by {
        if a != b {
            assert(system.writes_exclude(a, b));
        }
    }
}

/// No value gets lost on its way out, and none goes to two readers: every
/// position of the stream of all that was taken out was returned to one call,
/// and to one only.
pub proof fn law_every_position_read_once<T: Clone>(system: System<T>, p: int)
    requires
        system.inv(),
        0 <= p < system.state.ring.gone().len(),
    ensures
        exists|id: nat| system.read_by(p, id),
        forall|a: nat, b: nat| system.read_by(p, a) && system.read_by(p, b) ==> a == b,
{
    assert(system.read_at(p));
    assert forall|a: nat, b: nat| system.read_by(p, a) && system.read_by(p, b) implies a == b by {
        if a != b {
            assert(system.reads_exclude(a, b));
        }
    }
}

/// Every value that a call has read was given to a call that writes.
pub proof fn law_every_value_read_was_written<T: Clone>(system: System<T>, reader: nat, i: int)
    requires
        system.inv(),
        system.reads(reader),
        !(system.reader(reader).phase is Locking),
        0 <= i < system.reader(reader).ret.len(),
    ensures
        exists|w: nat, j: int|
            #![trigger system.writer(w).buf[j]]
            {
                &&& system.writes(w)
                &&& 0 <= j < system.writer(w).have_write
                &&& system.writer(w).from + j == system.reader(reader).from + i
                &&& cloned(system.writer(w).buf[j], system.reader(reader).ret[i])
            },
{
    law_first_in_first_out(system, reader);
    let p = system.reader(reader).from + i;
    law_every_position_written_once(system, p);
    let w = choose|w: nat| system.written_by(p, w);
    assert(system.written_in_order(w));
    law_read_returns_what_was_written(system, reader, w, p);
    let j = p - system.writer(w).from;
    assert(cloned(system.writer(w).buf[j], system.reader(reader).ret[i]));
}

/// Every value that was written has gone to a call that reads, or is still
/// there: in the ring, or on its way into it.
pub proof fn law_every_value_written_is_read_or_there<T: Clone>(system: System<T>, writer: nat, j: int)
    requires
        system.inv(),
        system.writes(writer),
        !(system.writer(writer).phase is Locking),
        0 <= j < system.writer(writer).have_write,
    ensures
        ({
            let p = system.writer(writer).from + j;
            let waiting = system.state.ring.contents + system.state.ring.coming;
            let queued = p - system.state.ring.gone().len();
            ||| exists|r: nat|
                #![trigger system.reader(r)]
                {
                    &&& system.read_by(p, r)
                    &&& cloned(
                        system.writer(writer).buf[j],
                        system.reader(r).ret[p - system.reader(r).from],
                    )
                }
            ||| 0 <= queued < waiting.len() && cloned(
                system.writer(writer).buf[j],
                waiting[queued],
            )
        }),
{
    law_writes_stay_together(system, writer);
    let ring = system.state.ring;
    let w = system.writer(writer);
    let p = w.from + j;
    if p < ring.gone().len() {
        law_every_position_read_once(system, p);
        let r = choose|r: nat| system.read_by(p, r);
        law_read_returns_what_was_written(system, r, writer, p);
        assert(system.read_by(p, r) && cloned(
            w.buf[j],
            system.reader(r).ret[p - system.reader(r).from],
        ));
    } else {
        let block = ring.stored().subrange(w.from as int, (w.from + w.have_write) as int);
        assert(block[j] == ring.stored()[p]);
        assert(w.buf.take(w.have_write as int)[j] == w.buf[j]);
        assert(ring.stored()[p] == (ring.contents + ring.coming)[p - ring.gone().len()]);
    }
}

impl<T: Clone> System<T> {
    /// Every call moves `k` values, or none.
    pub open spec fn moves_by(self, k: nat) -> bool {
        &&& forall|id: nat| #[trigger] self.writes(id) ==> self.writer(id).buf.len() == 0
            || self.writer(id).buf.len() == k
        &&& forall|id: nat| #[trigger] self.reads(id) ==> self.reader(id).to_read == 0
            || self.reader(id).to_read == k
    }
}

/// Where every call moves `k` values, each call that writes starts at a multiple of `k`.
proof fn lemma_writes_start_at_multiples<T: Clone>(system: System<T>, k: nat, id: nat)
    requires
        system.inv(),
        system.moves_by(k),
        k > 0,
        system.writes(id),
        system.writer(id).have_write > 0,
    ensures
        system.writer(id).from % k == 0,
    decreases system.writer(id).from,
{
    let call = system.writer(id);
    assert(system.written_in_order(id));
    if call.from > 0 {
        let p = call.from - 1;
        law_every_position_written_once(system, p);
        let before = choose|x: nat| system.written_by(p, x);
        assert(system.written_in_order(before));
        assert(system.writes_exclude(before, id) && system.writes_exclude(id, before));
        lemma_writes_start_at_multiples(system, k, before);
        vstd::arithmetic::div_mod::lemma_mod_add_multiples_vanish(
            system.writer(before).from as int,
            k as int,
        );
    } else {
        vstd::arithmetic::div_mod::lemma_small_mod(0, k);
    }
}

/// Where every call moves `k` values, each call that reads starts at a multiple of `k`.
proof fn lemma_reads_start_at_multiples<T: Clone>(system: System<T>, k: nat, id: nat)
    requires
        system.inv(),
        system.moves_by(k),
        k > 0,
        system.reads(id),
        system.reader(id).ret.len() > 0,
    ensures
        system.reader(id).from % k == 0,
    decreases system.reader(id).from,
{
    let call = system.reader(id);
    assert(system.read_in_order(id));
    if call.from > 0 {
        let p = call.from - 1;
        law_every_position_read_once(system, p);
        let before = choose|x: nat| system.read_by(p, x);
        assert(system.read_in_order(before));
        assert(system.reads_exclude(before, id) && system.reads_exclude(id, before));
        lemma_reads_start_at_multiples(system, k, before);
        vstd::arithmetic::div_mod::lemma_mod_add_multiples_vanish(
            system.reader(before).from as int,
            k as int,
        );
    } else {
        vstd::arithmetic::div_mod::lemma_small_mod(0, k);
    }
}

/// Two multiples of `k` that are less than `k` apart are the same.
proof fn lemma_close_multiples(a: int, b: int, k: int)
    requires
        k > 0,
        a % k == 0,
        b % k == 0,
        a <= b < a + k,
    ensures
        a == b,
{
    vstd::arithmetic::div_mod::lemma_fundamental_div_mod(a, k);
    vstd::arithmetic::div_mod::lemma_fundamental_div_mod(b, k);
    assert(a == b) by (nonlinear_arith)
        requires
            k > 0,
            a == k * (a / k),
            b == k * (b / k),
            a <= b < a + k,
    ;
}

/// Where every call moves `k` values, a read that is over has read one whole
/// write: all of it, in its order, and nothing else.
pub proof fn law_read_is_one_whole_write<T: Clone>(system: System<T>, k: nat, reader: nat)
    requires
        system.inv(),
        system.moves_by(k),
        k > 0,
        system.reads(reader),
        system.reader(reader).phase is Finished,
        system.reader(reader).to_read == k,
    ensures
        exists|w: nat| #[trigger]
            system.writes(w) && all_cloned(system.writer(w).buf, system.reader(reader).ret),
{
    let r = system.reader(reader);
    assert(system.read_in_order(reader));
    law_first_in_first_out(system, reader);
    let p = r.from as int;
    law_every_position_written_once(system, p);
    let w = choose|w: nat| system.written_by(p, w);
    let call = system.writer(w);
    assert(system.written_in_order(w));
    lemma_reads_start_at_multiples(system, k, reader);
    lemma_writes_start_at_multiples(system, k, w);
    lemma_close_multiples(call.from as int, p, k as int);
    assert(call.have_write == k);
    assert forall|i: int| 0 <= i < k implies cloned(call.buf[i], r.ret[i]) by {
        law_read_returns_what_was_written(system, reader, w, p + i);
    }
    assert(system.writes(w) && all_cloned(call.buf, r.ret));
}

proof fn lemma_turn_grows_streams<T: Clone>(pre: System<T>, post: System<T>, id: nat, value: T)
    requires
        pre.turn(post, id, value),
    ensures
        pre.state.ring.stored().is_prefix_of(post.state.ring.stored()),
        pre.state.ring.gone().is_prefix_of(post.state.ring.gone()),
        post.state.ring.capacity == pre.state.ring.capacity,
        post.state.policy == pre.state.policy,
{
    let ring = pre.state.ring;
    let after = post.state.ring;
    let (stored, gone) = (ring.stored(), ring.gone());
    assert(stored.is_prefix_of(stored) && gone.is_prefix_of(gone));
    if after == ring {
    } else if pre.reads(id) {
        if after == ring.given_back() {
            lemma_give_back_keeps_stored(ring);
        } else {
            assert(after == ring.after_take(1) && ring.contents.len() > 0);
            lemma_take_keeps_stored(ring, 1);
            assert(gone.is_prefix_of(gone + ring.contents.take(1)));
        }
    } else {
        if after == ring.shown() {
            lemma_show_keeps_stored(ring);
        } else {
            assert(after == ring.after_put(value));
            lemma_put_extends_stored(ring, value);
            assert(stored.is_prefix_of(stored.push(value)));
        }
    }
}

/// What was put in is never taken back or changed, nor what was taken out: both
/// streams only grow. The capacity stays what it is.
pub proof fn law_streams_only_grow<T: Clone>(pre: System<T>, post: System<T>)
    requires
        pre.next(post),
    ensures
        pre.state.ring.stored().is_prefix_of(post.state.ring.stored()),
        pre.state.ring.gone().is_prefix_of(post.state.ring.gone()),
        post.state.ring.capacity == pre.state.ring.capacity,
        post.state.policy == pre.state.policy,
{
    let ring = pre.state.ring;
    let (stored, gone) = (ring.stored(), ring.gone());
    if exists|id: nat, value: T| pre.turn(post, id, value) {
        let (id, value) = choose|id: nat, value: T| pre.turn(post, id, value);
        lemma_turn_grows_streams(pre, post, id, value);
    } else {
        assert(stored.is_prefix_of(stored) && gone.is_prefix_of(gone));
        if post.state != pre.state {
            let (id, me, amt) = choose|id: nat, me: u64, amt: nat| pre.read(post, id, me, amt);
            let n = least(ring.contents.len() as int, amt as int);
            lemma_take_keeps_stored(ring, n);
            lemma_give_back_keeps_stored(ring.after_take(n));
            assert(gone.is_prefix_of(gone + ring.contents.take(n)));
        }
    }
}

/// At most one call sleeps.
pub proof fn law_one_sleeper<T: Clone>(system: System<T>, a: nat, b: nat)
    requires
        system.inv(),
        system.parked(a),
        system.parked(b),
    ensures
        a == b,
{
}

/// A call that has to wait could not be finished with what the ring has.
pub proof fn law_lacking_cannot_finish<T: Clone>(system: System<T>, id: nat)
    requires
        system.inv(),
        system.calls.contains_key(id),
        system.lacking(id),
    ensures
        match system.calls[id] {
            Call::Read(call) => system.state.ring.contents.len() < call.missing(),
            Call::Write(call) => system.state.ring.room() < call.missing(),
        },
{
}

/// No signal is lost: as long as nobody is about to signal it, a call that
/// sleeps unsignalled could not be finished with what the ring has.
pub proof fn law_no_lost_signal<T: Clone>(system: System<T>, id: nat)
    requires
        system.inv(),
        system.asleep(id),
        forall|other: nat| !system.signalling(other),
    ensures
        match system.calls[id] {
            Call::Read(call) => system.state.ring.contents.len() < call.missing(),
            Call::Write(call) => system.state.ring.room() < call.missing(),
        },
{
    law_lacking_cannot_finish(system, id);
}

/// A call that signals leaves nobody asleep, and names whoever was.
pub proof fn law_signal_reaches_sleeper<T: Clone>(
    pre: System<T>,
    post: System<T>,
    id: nat,
    value: T,
    sleeper: nat,
)
    requires
        pre.inv(),
        pre.signalling(id),
        pre.turn(post, id, value),
        pre.asleep(sleeper),
    ensures
        !post.asleep(sleeper),
        post.parked(sleeper),
        post.state.waiting == Some((false, pre.calls[sleeper].me())),
        match pre.calls[id] {
            Call::Read(call) => pre.state.read_step(call).2 == Action::Unpark(
                pre.calls[sleeper].me(),
            ),
            Call::Write(call) => pre.state.write_step(call, value).2 == Action::Unpark(
                pre.calls[sleeper].me(),
            ),
        },
{
    if pre.reads(id) {
        assert(pre.read_in_order(id));
    } else {
        assert(pre.writes(id));
        assert(pre.written_in_order(id));
    }
    assert(pre.parked(sleeper));
}

/// A read that does not wait, and finds values, leaves nobody asleep, and names
/// to its caller whoever was.
pub proof fn law_read_reaches_sleeper<T: Clone>(
    pre: System<T>,
    post: System<T>,
    id: nat,
    me: u64,
    amt: nat,
    sleeper: nat,
)
    requires
        pre.inv(),
        pre.read(post, id, me, amt),
        pre.state.rlock is None,
        pre.state.ring.contents.len() > 0,
        pre.parked(sleeper),
    ensures
        pre.state.try_read(amt).2 == Some(pre.calls[sleeper].me()),
        post.parked(sleeper),
        !post.asleep(sleeper),
        post.state.waiting == Some((false, pre.calls[sleeper].me())),
{
}

impl<T: Clone> System<T> {
    /// The next turn of call `id` would change nothing.
    pub open spec fn stalled(self, id: nat) -> bool {
        match self.calls[id] {
            Call::Read(call) => {
                let (state, after, _) = self.state.read_step(call);
                state == self.state && after == call
            },
            Call::Write(call) => forall|value: T|
                ({
                    let (state, after, _) = #[trigger] self.state.write_step(call, value);
                    state == self.state && after == call
                }),
        }
    }
}

/// A call under way stands still only where it could not be finished with what
/// the ring has, or where another call is about to signal.
pub proof fn law_stalled_is_lacking<T: Clone>(system: System<T>, id: nat)
    requires
        system.inv(),
        system.calls.contains_key(id),
        system.calls[id].holding(),
        system.stalled(id),
    ensures
        system.lacking(id) || exists|other: nat| #[trigger] system.signalling(other),
{
    if system.reads(id) {
        let call = system.reader(id);
        assert(system.read_in_order(id));
        if call.phase is Parked {
            assert(system.parked(id));
            assert(system.asleep(id));
        }
    } else {
        let call = system.writer(id);
        assert(system.writes(id));
        assert(system.written_in_order(id));
        let value: T = arbitrary();
        let _ = system.state.write_step(call, value);
        if call.phase is Parked {
            assert(system.parked(id));
            assert(system.asleep(id));
        }
    }
}

/// No deadlock: where a call that reads and a call that writes are both under
/// way, one of them can go on. (Calls that spin on a ring without capacity are
/// the exception: nothing can ever pass.)
pub proof fn law_no_deadlock<T: Clone>(system: System<T>, reader: nat, writer: nat)
    requires
        system.inv(),
        system.reads(reader),
        system.writes(writer),
        system.reader(reader).holding(),
        system.writer(writer).holding(),
        system.state.policy is Sleep || system.state.ring.capacity > 0,
    ensures
        !system.stalled(reader) || !system.stalled(writer),
{
    let (r, w) = (system.reader(reader), system.writer(writer));
    assert(system.read_in_order(reader));
    assert(system.written_in_order(writer));
    if system.stalled(reader) && system.stalled(writer) {
        let value: T = arbitrary();
        let _ = system.state.write_step(w, value);
        assert(r.phase is Checking || r.phase is Parked);
        assert(w.phase is Checking || w.phase is Parked);
        assert(system.parked(reader) == r.phase is Parked);
        assert(system.parked(writer) == w.phase is Parked);
        if r.phase is Checking && w.phase is Checking && system.state.waiter() is Some {
            let sleeper = choose|id: nat| #[trigger] system.parked(id);
            if system.reads(sleeper) {
                assert(system.reads_exclude(sleeper, reader));
            } else {
                assert(system.writes(sleeper));
                assert(system.writes_exclude(sleeper, writer));
            }
        }
    }
}

impl<T: Clone> System<T> {
    /// Call `id` was made and is not over.
    pub open spec fn unfinished(self, id: nat) -> bool {
        self.calls.contains_key(id) && !(self.calls[id].phase() is Finished)
    }
}

/// Where a call that reads is not over, one that reads is under way or can take the lock.
proof fn lemma_reader_under_way<T: Clone>(system: System<T>, id: nat) -> (reader: nat)
    requires
        system.inv(),
        system.reads(id),
        system.unfinished(id),
    ensures
        system.reads(reader),
        system.unfinished(reader),
        system.reader(reader).holding() || !system.stalled(reader),
{
    if system.reader(id).holding() || system.state.rlock is None {
        id
    } else {
        choose|x: nat| #[trigger] system.reads(x) && system.reader(x).holding() && system.reader(x).me
            == system.state.rlock->0
    }
}

/// Where a call that writes is not over, one that writes is under way or can go on.
proof fn lemma_writer_under_way<T: Clone>(system: System<T>, id: nat) -> (writer: nat)
    requires
        system.inv(),
        system.writes(id),
        system.unfinished(id),
    ensures
        system.writes(writer),
        system.unfinished(writer),
        system.writer(writer).holding() || !system.stalled(writer),
{
    let call = system.writer(id);
    if call.holding() || call.buf.len() == 0 || system.state.wlock is None {
        if !call.holding() {
            let value: T = arbitrary();
            assert(system.state.write_step(call, value).1.phase != call.phase);
        }
        id
    } else {
        choose|x: nat| #[trigger] system.writes(x) && system.writer(x).holding() && system.writer(x).me
            == system.state.wlock->0
    }
}

/// No deadlock: as long as a call that reads and a call that writes are not
/// over, whether or not they have their locks, some call that is not over can
/// go on. (Calls that spin on a ring without capacity are the exception.)
pub proof fn law_some_call_goes_on<T: Clone>(system: System<T>, reader: nat, writer: nat)
    requires
        system.inv(),
        system.reads(reader),
        system.writes(writer),
        system.unfinished(reader),
        system.unfinished(writer),
        system.state.policy is Sleep || system.state.ring.capacity > 0,
    ensures
        exists|id: nat| #[trigger] system.unfinished(id) && !system.stalled(id),
{
    let r = lemma_reader_under_way(system, reader);
    let w = lemma_writer_under_way(system, writer);
    assert(system.unfinished(r) && system.unfinished(w));
    if system.reader(r).holding() && system.writer(w).holding() {
        law_no_deadlock(system, r, w);
    }
}

} // verus!
