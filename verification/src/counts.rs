//! Nothing is lost and nothing appears: what all calls together have put in and
//! taken out, counted value by value.

use crate::model::{least, Policy, State};
use crate::system::{
    is_run, law_inv_holds_throughout, lemma_give_back_keeps_stored, lemma_put_extends_stored,
    lemma_show_keeps_stored, lemma_take_keeps_stored, Call, System,
};
use vstd::multiset::Multiset;
use vstd::prelude::*;

verus! {

/// The sum of `f` over all numbers below `n`.
pub open spec fn total(f: spec_fn(nat) -> nat, n: nat) -> nat
    decreases n,
{
    if n == 0 {
        0
    } else {
        total(f, (n - 1) as nat) + f((n - 1) as nat)
    }
}

/// All items of `f` over all numbers below `n`.
pub open spec fn total_items<T>(f: spec_fn(nat) -> Multiset<T>, n: nat) -> Multiset<T>
    decreases n,
{
    if n == 0 {
        Multiset::empty()
    } else {
        total_items(f, (n - 1) as nat).add(f((n - 1) as nat))
    }
}

/// Where two functions differ at `id` only, so do their sums.
pub proof fn lemma_total_update(f: spec_fn(nat) -> nat, g: spec_fn(nat) -> nat, n: nat, id: nat)
    requires
        forall|x: nat| x < n && x != id ==> #[trigger] f(x) == g(x),
    ensures
        id < n ==> total(g, n) + f(id) == total(f, n) + g(id),
        id >= n ==> total(g, n) == total(f, n),
    decreases n,
{
    if n > 0 {
        lemma_total_update(f, g, (n - 1) as nat, id);
        if n - 1 != id {
            assert(f((n - 1) as nat) == g((n - 1) as nat));
        }
    }
}

/// Where one function is nowhere over another, what it is under it at `id` it
/// is under it in sum.
pub proof fn lemma_total_least(f: spec_fn(nat) -> nat, g: spec_fn(nat) -> nat, n: nat, id: nat)
    requires
        forall|x: nat| x < n ==> #[trigger] f(x) <= g(x),
        id < n,
    ensures
        total(f, n) + g(id) <= total(g, n) + f(id),
    decreases n,
{
    assert(f((n - 1) as nat) <= g((n - 1) as nat));
    if n - 1 != id {
        lemma_total_least(f, g, (n - 1) as nat, id);
    } else {
        lemma_total_monotone(f, g, (n - 1) as nat);
    }
}

/// Where one function is nowhere over another, nor is its sum.
pub proof fn lemma_total_monotone(f: spec_fn(nat) -> nat, g: spec_fn(nat) -> nat, n: nat)
    requires
        forall|x: nat| x < n ==> #[trigger] f(x) <= g(x),
    ensures
        total(f, n) <= total(g, n),
    decreases n,
{
    if n > 0 {
        assert(f((n - 1) as nat) <= g((n - 1) as nat));
        lemma_total_monotone(f, g, (n - 1) as nat);
    }
}

/// Where two functions differ at `id` only, so do all their items.
proof fn lemma_items_update<T>(
    f: spec_fn(nat) -> Multiset<T>,
    g: spec_fn(nat) -> Multiset<T>,
    n: nat,
    id: nat,
)
    requires
        forall|x: nat| x < n && x != id ==> #[trigger] f(x) == g(x),
    ensures
        id < n ==> total_items(g, n).add(f(id)) == total_items(f, n).add(g(id)),
        id >= n ==> total_items(g, n) == total_items(f, n),
    decreases n,
{
    if n > 0 {
        let m = (n - 1) as nat;
        lemma_items_update(f, g, m, id);
        if m != id {
            assert(f(m) == g(m));
            if id < n {
                let (a, b) = (total_items(g, m), total_items(f, m));
                assert(a.add(f(m)).add(f(id)) =~= a.add(f(id)).add(f(m)));
                assert(b.add(f(m)).add(g(id)) =~= b.add(g(id)).add(f(m)));
            }
        } else {
            let a = total_items(f, m);
            assert(a.add(g(id)).add(f(id)) =~= a.add(f(id)).add(g(id)));
        }
    }
}

/// A clone of a value is that value.
pub open spec fn clones_equal<T: Clone>() -> bool {
    forall|a: T, b: T| #[trigger] cloned(a, b) ==> a == b
}

impl<T: Clone> System<T> {
    /// All calls have numbers below `n`.
    pub open spec fn numbered(self, n: nat) -> bool {
        forall|id: nat| #[trigger] self.calls.contains_key(id) ==> id < n
    }

    /// How many values call `id` has read.
    pub open spec fn read_count(self, id: nat) -> nat {
        if self.reads(id) {
            self.reader(id).ret.len()
        } else {
            0
        }
    }

    /// How many values call `id` has written.
    pub open spec fn write_count(self, id: nat) -> nat {
        if self.writes(id) {
            self.writer(id).have_write
        } else {
            0
        }
    }

    /// The values that call `id` has read.
    pub open spec fn items_read(self, id: nat) -> Multiset<T> {
        if self.reads(id) {
            self.reader(id).ret.to_multiset()
        } else {
            Multiset::empty()
        }
    }

    /// The values that call `id` was given and has written.
    pub open spec fn items_written(self, id: nat) -> Multiset<T> {
        if self.writes(id) {
            self.writer(id).buf.take(self.writer(id).have_write as int).to_multiset()
        } else {
            Multiset::empty()
        }
    }

    /// All the values that call `id` was given to write.
    pub open spec fn items_given(self, id: nat) -> Multiset<T> {
        if self.writes(id) {
            self.writer(id).buf.to_multiset()
        } else {
            Multiset::empty()
        }
    }

    /// How many values the calls below `n` have read.
    pub open spec fn total_read(self, n: nat) -> nat {
        total(|id: nat| self.read_count(id), n)
    }

    /// How many values the calls below `n` have written.
    pub open spec fn total_written(self, n: nat) -> nat {
        total(|id: nat| self.write_count(id), n)
    }

    /// The values that the calls below `n` have read.
    pub open spec fn all_read(self, n: nat) -> Multiset<T> {
        total_items(|id: nat| self.items_read(id), n)
    }

    /// The values that the calls below `n` were given and have written.
    pub open spec fn all_written(self, n: nat) -> Multiset<T> {
        total_items(|id: nat| self.items_written(id), n)
    }

    /// All the values that the calls below `n` were given to write.
    pub open spec fn all_given(self, n: nat) -> Multiset<T> {
        total_items(|id: nat| self.items_given(id), n)
    }

    /// What all calls have read is what has left the ring, and what all calls
    /// have written is what came into it.
    pub open spec fn counted(self) -> bool {
        forall|n: nat| #[trigger]
            self.numbered(n) ==> {
                &&& self.total_read(n) == self.state.ring.gone().len()
                &&& self.total_written(n) == self.state.ring.stored().len()
                &&& self.all_read(n) == self.state.ring.gone().to_multiset()
                &&& clones_equal::<T>() ==> self.all_written(n)
                    == self.state.ring.stored().to_multiset()
            }
    }
}

/// A change of one call keeps the count where it is the change of the streams.
proof fn lemma_change_keeps_counted<T: Clone>(pre: System<T>, post: System<T>, id: nat)
    requires
        pre.counted(),
        post.calls.contains_key(id),
        post.calls == pre.calls.insert(id, post.calls[id]),
        post.state.ring.gone().len() + pre.read_count(id) == pre.state.ring.gone().len()
            + post.read_count(id),
        post.state.ring.stored().len() + pre.write_count(id) == pre.state.ring.stored().len()
            + post.write_count(id),
        post.state.ring.gone().to_multiset().add(pre.items_read(id))
            == pre.state.ring.gone().to_multiset().add(post.items_read(id)),
        clones_equal::<T>() ==> post.state.ring.stored().to_multiset().add(pre.items_written(id))
            == pre.state.ring.stored().to_multiset().add(post.items_written(id)),
    ensures
        post.counted(),
{
    assert forall|n: nat| #[trigger] post.numbered(n) implies {
        &&& post.total_read(n) == post.state.ring.gone().len()
        &&& post.total_written(n) == post.state.ring.stored().len()
        &&& post.all_read(n) == post.state.ring.gone().to_multiset()
        &&& clones_equal::<T>() ==> post.all_written(n) == post.state.ring.stored().to_multiset()
    } by {
        assert(pre.numbered(n)) by {
            assert forall|x: nat| #[trigger] pre.calls.contains_key(x) implies x < n by {
                assert(post.calls.contains_key(x));
            }
        }
        assert(id < n);
        assert forall|x: nat| x != id implies {
            &&& #[trigger] pre.reads(x) == post.reads(x)
            &&& pre.writes(x) == post.writes(x)
            &&& pre.reader(x) == post.reader(x)
            &&& pre.writer(x) == post.writer(x)
        } by {}
        lemma_total_update(|x: nat| pre.read_count(x), |x: nat| post.read_count(x), n, id);
        lemma_total_update(|x: nat| pre.write_count(x), |x: nat| post.write_count(x), n, id);
        lemma_items_update(|x: nat| pre.items_read(x), |x: nat| post.items_read(x), n, id);
        let a = pre.items_read(id);
        let (u, v) = (post.all_read(n), post.state.ring.gone().to_multiset());
        assert(u.add(a) == v.add(a));
        lemma_add_cancels(u, v, a);
        if clones_equal::<T>() {
            lemma_items_update(|x: nat| pre.items_written(x), |x: nat| post.items_written(x), n, id);
            let b = pre.items_written(id);
            let (u, v) = (post.all_written(n), post.state.ring.stored().to_multiset());
            assert(u.add(b) == v.add(b));
            lemma_add_cancels(u, v, b);
        }
    }
}

proof fn lemma_add_cancels<T>(u: Multiset<T>, v: Multiset<T>, a: Multiset<T>)
    requires
        u.add(a) == v.add(a),
    ensures
        u == v,
{
    assert(u.add(a).sub(a) =~= u);
    assert(v.add(a).sub(a) =~= v);
}

proof fn lemma_empty_items<T>()
    ensures
        Seq::<T>::empty().to_multiset() == Multiset::<T>::empty(),
{
    broadcast use vstd::seq_lib::group_to_multiset_ensures;

    assert(Seq::<T>::empty().to_multiset() =~= Multiset::<T>::empty());
}

proof fn lemma_begin_keeps_counted<T: Clone>(
    pre: System<T>,
    post: System<T>,
    id: nat,
    call: Call<T>,
)
    requires
        pre.counted(),
        pre.begin(post, id, call),
    ensures
        post.counted(),
{
    lemma_empty_items::<T>();
    if post.writes(id) {
        assert(post.writer(id).buf.take(0) =~= Seq::<T>::empty());
    }
    lemma_change_keeps_counted(pre, post, id);
}

proof fn lemma_turn_keeps_counted<T: Clone>(pre: System<T>, post: System<T>, id: nat, value: T)
    requires
        pre.inv(),
        pre.counted(),
        pre.turn(post, id, value),
    ensures
        post.counted(),
{
    broadcast use vstd::seq_lib::group_to_multiset_ensures;

    let ring = pre.state.ring;
    let after = post.state.ring;
    if pre.reads(id) {
        let call = pre.reader(id);
        assert(pre.read_in_order(id));
        if call.phase is Moving && call.ret.len() < call.goal && !pre.state.read_blocked(call) {
            lemma_take_keeps_stored(ring, 1);
            let taken = ring.contents.first();
            assert(ring.contents.take(1) =~= seq![taken]);
            assert(after.gone() =~= ring.gone().push(taken));
            let (a, b) = (call.ret.to_multiset(), ring.gone().to_multiset());
            assert(b.insert(taken).add(a) =~= b.add(a.insert(taken)));
        } else {
            lemma_give_back_keeps_stored(ring);
        }
    } else {
        let call = pre.writer(id);
        assert(pre.writes(id));
        assert(pre.written_in_order(id));
        lemma_show_keeps_stored(ring);
        assert(after.gone() =~= ring.gone());
        if pre.state.puts(call) {
            lemma_put_extends_stored(ring, value);
            let given = call.buf.take(call.have_write as int);
            let next = call.buf[call.have_write as int];
            assert(call.buf.take(call.have_write as int + 1) =~= given.push(next));
            let (a, b) = (given.to_multiset(), ring.stored().to_multiset());
            assert(b.insert(next).add(a) =~= b.add(a.insert(next)));
            assert(clones_equal::<T>() ==> value == next);
        }
    }
    lemma_change_keeps_counted(pre, post, id);
}

proof fn lemma_read_keeps_counted<T: Clone>(
    pre: System<T>,
    post: System<T>,
    id: nat,
    me: u64,
    amt: nat,
)
    requires
        pre.inv(),
        pre.counted(),
        pre.read(post, id, me, amt),
    ensures
        post.counted(),
{
    lemma_empty_items::<T>();
    let ring = pre.state.ring;
    let n = least(ring.contents.len() as int, amt as int);
    lemma_take_keeps_stored(ring, n);
    lemma_give_back_keeps_stored(ring.after_take(n));
    let values = post.reader(id).ret;
    assert(post.state.ring.gone() =~= ring.gone() + values);
    vstd::seq_lib::lemma_multiset_commutative(ring.gone(), values);
    let b = post.state.ring.gone().to_multiset();
    assert(b.add(Multiset::empty()) =~= b);
    let b = ring.stored().to_multiset();
    assert(post.state.ring.stored() == ring.stored());
    lemma_change_keeps_counted(pre, post, id);
}

/// Whatever happens next, the count stays right.
pub proof fn law_next_keeps_counted<T: Clone>(pre: System<T>, post: System<T>)
    requires
        pre.inv(),
        pre.counted(),
        pre.next(post),
    ensures
        post.counted(),
{
    if exists|id: nat, call: Call<T>| pre.begin(post, id, call) {
        let (id, call) = choose|id: nat, call: Call<T>| pre.begin(post, id, call);
        lemma_begin_keeps_counted(pre, post, id, call);
    } else if exists|id: nat, value: T| pre.turn(post, id, value) {
        let (id, value) = choose|id: nat, value: T| pre.turn(post, id, value);
        lemma_turn_keeps_counted(pre, post, id, value);
    } else {
        let (id, me, amt) = choose|id: nat, me: u64, amt: nat| pre.read(post, id, me, amt);
        lemma_read_keeps_counted(pre, post, id, me, amt);
    }
}

/// Where calls have only just been made on a new ring buffer, the count is right.
pub proof fn lemma_fresh_calls_counted<T: Clone>(system: System<T>)
    requires
        system.state == State::<T>::empty(system.state.ring.capacity, system.state.policy),
        forall|id: nat| #[trigger] system.calls.contains_key(id) ==> system.calls[id].fresh(),
    ensures
        system.counted(),
{
    let ring = system.state.ring;
    lemma_empty_items::<T>();
    assert(ring.gone() =~= Seq::<T>::empty());
    assert(ring.stored() =~= Seq::<T>::empty());
    assert forall|n: nat| #[trigger] system.numbered(n) implies {
        &&& system.total_read(n) == 0
        &&& system.total_written(n) == 0
        &&& system.all_read(n) == Multiset::<T>::empty()
        &&& system.all_written(n) == Multiset::<T>::empty()
    } by {
        assert forall|x: nat| #[trigger] system.items_written(x) == Multiset::<T>::empty() by {
            if system.writes(x) {
                assert(system.writer(x).buf.take(0) =~= Seq::<T>::empty());
            }
        }
        lemma_nothing(|x: nat| system.read_count(x), |x: nat| system.items_read(x), n);
        lemma_nothing(|x: nat| system.write_count(x), |x: nat| system.items_written(x), n);
    }
}

proof fn lemma_nothing<T>(f: spec_fn(nat) -> nat, g: spec_fn(nat) -> Multiset<T>, n: nat)
    requires
        forall|x: nat| #[trigger] f(x) == 0,
        forall|x: nat| #[trigger] g(x) == Multiset::<T>::empty(),
    ensures
        total(f, n) == 0,
        total_items(g, n) == Multiset::<T>::empty(),
    decreases n,
{
    if n > 0 {
        lemma_nothing(f, g, (n - 1) as nat);
        assert(total_items(g, n) =~= Multiset::<T>::empty());
    }
}

/// The count is right in every state that a ring buffer goes through.
pub proof fn law_counted_throughout<T: Clone>(
    capacity: nat,
    policy: Policy,
    run: Seq<System<T>>,
    i: int,
)
    requires
        is_run(capacity, policy, run),
        0 <= i < run.len(),
    ensures
        run[i].counted(),
    decreases i,
{
    if i > 0 {
        law_counted_throughout(capacity, policy, run, i - 1);
        law_inv_holds_throughout(capacity, policy, run, i - 1);
        assert(run[i - 1].next(run[i]));
        law_next_keeps_counted(run[i - 1], run[i]);
    } else {
        lemma_fresh_calls_counted(run[0]);
    }
}

/// Nothing is lost and nothing appears: what all calls together have returned,
/// with what is in the ring, is what all calls together have written, each
/// value as often as it was written. It holds at all times, also while calls
/// are under way, and needs that a clone of a value is that value.
pub proof fn law_nothing_lost_nothing_new<T: Clone>(system: System<T>, n: nat)
    requires
        system.counted(),
        system.numbered(n),
        clones_equal::<T>(),
    ensures
        system.all_read(n).add(
            (system.state.ring.contents + system.state.ring.coming).to_multiset(),
        ) == system.all_written(n),
{
    let ring = system.state.ring;
    let inside = ring.contents + ring.coming;
    assert(ring.stored() =~= ring.gone() + inside);
    vstd::seq_lib::lemma_multiset_commutative(ring.gone(), inside);
}

/// As many values were returned, or are in the ring, as were written.
pub proof fn law_as_many_out_as_in<T: Clone>(system: System<T>, n: nat)
    requires
        system.counted(),
        system.numbered(n),
    ensures
        system.total_read(n) + system.state.ring.contents.len() + system.state.ring.coming.len()
            == system.total_written(n),
{
}

/// Once every call that writes is over, what all calls were given to write is
/// what was returned and what is there to be read.
pub proof fn law_all_given_is_returned_or_queued<T: Clone>(system: System<T>, n: nat)
    requires
        system.inv(),
        system.counted(),
        system.numbered(n),
        clones_equal::<T>(),
        forall|id: nat| #[trigger] system.writes(id) ==> system.writer(id).phase is Finished,
    ensures
        system.all_read(n).add(system.state.ring.contents.to_multiset()) == system.all_given(n),
{
    let ring = system.state.ring;
    law_nothing_lost_nothing_new(system, n);
    assert(ring.coming.len() == 0) by {
        if system.state.wlock is Some {
            let holder = choose|x: nat| #[trigger]
                system.writes(x) && system.writer(x).holding() && system.writer(x).me
                    == system.state.wlock->0;
            assert(false);
        }
    }
    assert(ring.contents + ring.coming =~= ring.contents);
    let written = |id: nat| system.items_written(id);
    let given = |id: nat| system.items_given(id);
    assert forall|x: nat| x < n && x != n implies #[trigger] written(x) == given(x) by {
        if system.writes(x) {
            assert(system.written_in_order(x));
            let call = system.writer(x);
            assert(call.buf.take(call.have_write as int) =~= call.buf);
        }
    }
    lemma_items_update(written, given, n, n);
}

} // verus!
