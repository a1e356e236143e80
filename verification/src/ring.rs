//! The ring itself: storage, a cursor at each end, and the copying in and out.

use crate::rawbuf::{slot_view, slots_fit, slots_view, RawBuf};
use core::mem::ManuallyDrop;
use vstd::prelude::*;

verus! {

/// The slot that lies `offset` slots after `start`, going round a buffer of `size` slots.
pub open spec fn wrap(start: int, offset: int, size: int) -> int {
    if start + offset < size {
        start + offset
    } else {
        start + offset - size
    }
}

/// Going round the buffer is addition modulo its size.
pub proof fn law_wrap_is_modular(start: int, offset: int, size: int)
    requires
        0 <= start < size,
        0 <= offset <= size,
    ensures
        wrap(start, offset, size) == (start + offset) % size,
{
    if start + offset < size {
        vstd::arithmetic::div_mod::lemma_small_mod((start + offset) as nat, size as nat);
    } else {
        vstd::arithmetic::div_mod::lemma_small_mod((start + offset - size) as nat, size as nat);
        vstd::arithmetic::div_mod::lemma_mod_add_multiples_vanish(start + offset - size, size);
    }
}

/// How many slots the reading cursor is behind the writing cursor.
pub open spec fn distance(tail: int, head: int, size: int) -> int {
    if head >= tail {
        head - tail
    } else {
        head + size - tail
    }
}

/// The reader and the writer never meet: a slot between the cursors, which a
/// reader may empty, is none of the free slots, which a writer may fill.
pub proof fn law_reader_and_writer_slots_differ(tail: int, head: int, size: int, i: int, j: int)
    requires
        0 <= tail < size,
        0 <= head < size,
        0 <= i < distance(tail, head, size),
        0 <= j < size - 1 - distance(tail, head, size),
    ensures
        wrap(tail, i, size) != wrap(head, j, size),
{
}

/// A cursor that was looked at a while ago errs on the safe side: a reader that
/// has seen where the head was before the writer went `n` slots on finds no
/// more values than there are, and a writer that has seen where the tail was
/// before the reader went `n` slots on finds no more room than there is.
pub proof fn law_stale_cursor_is_safe(tail: int, head: int, size: int, n: int)
    requires
        0 <= tail < size,
        0 <= head < size,
        0 <= n,
    ensures
        n <= size - 1 - distance(tail, head, size) ==> distance(tail, wrap(head, n, size), size)
            == distance(tail, head, size) + n,
        n <= distance(tail, head, size) ==> distance(wrap(tail, n, size), head, size) == distance(
            tail,
            head,
            size,
        ) - n,
{
}

/// The distance between the cursors is their difference modulo the size.
pub proof fn law_distance_is_modular(tail: int, head: int, size: int)
    requires
        0 <= tail < size,
        0 <= head < size,
    ensures
        distance(tail, head, size) == (head - tail) % size,
{
    if head >= tail {
        vstd::arithmetic::div_mod::lemma_small_mod((head - tail) as nat, size as nat);
    } else {
        vstd::arithmetic::div_mod::lemma_small_mod((head + size - tail) as nat, size as nat);
        vstd::arithmetic::div_mod::lemma_mod_add_multiples_vanish(head - tail, size);
    }
}

/// The buffer read once round from `tail`.
pub open spec fn lap<T>(slots: Seq<Option<T>>, tail: int) -> Seq<Option<T>> {
    Seq::new(slots.len(), |k: int| slots[wrap(tail, k, slots.len() as int)])
}

/// A change to the slot `k` slots after the tail is a change at `k` of the lap.
proof fn lemma_lap_update<T>(slots: Seq<Option<T>>, tail: int, k: int, slot: Option<T>)
    requires
        0 <= tail < slots.len(),
        0 <= k < slots.len(),
    ensures
        lap(slots.update(wrap(tail, k, slots.len() as int), slot), tail) == lap(
            slots,
            tail,
        ).update(k, slot),
{
    assert(lap(slots.update(wrap(tail, k, slots.len() as int), slot), tail) =~= lap(
        slots,
        tail,
    ).update(k, slot));
}

/// What a ring holds, from the oldest value to the newest.
///
/// A reader empties slots one by one and then gives them all back at once; a
/// writer fills slots one by one and then shows them all at once. So at either
/// end some values may be on their way.
#[verifier::ext_equal]
pub struct RingView<T> {
    /// How many values fit.
    pub capacity: nat,
    /// The values that have left and whose slots were given back.
    pub taken: Seq<T>,
    /// The values that a reader has out of their slots, which it has yet to give back.
    pub leaving: Seq<T>,
    /// The values that are there to be read.
    pub contents: Seq<T>,
    /// The values that a writer has put into slots, which it has yet to show.
    pub coming: Seq<T>,
}

impl<T> RingView<T> {
    /// A new ring.
    pub open spec fn empty(capacity: nat) -> RingView<T> {
        RingView {
            capacity,
            taken: Seq::empty(),
            leaving: Seq::empty(),
            contents: Seq::empty(),
            coming: Seq::empty(),
        }
    }

    /// Every value that was ever taken out of its slot, in order.
    pub open spec fn gone(self) -> Seq<T> {
        self.taken + self.leaving
    }

    /// Every value that was ever put into a slot, in order.
    pub open spec fn stored(self) -> Seq<T> {
        self.gone() + self.contents + self.coming
    }

    /// How many slots lie between the cursors: a slot counts until it is given back.
    pub open spec fn used(self) -> nat {
        self.leaving.len() + self.contents.len()
    }

    /// How many slots a writer may fill before it shows them.
    pub open spec fn room(self) -> int {
        self.capacity - self.used()
    }

    /// A reader takes the `n` oldest values out of their slots.
    pub open spec fn after_take(self, n: int) -> RingView<T> {
        RingView {
            leaving: self.leaving + self.contents.take(n),
            contents: self.contents.skip(n),
            ..self
        }
    }

    /// The reader gives back the slots that it has emptied.
    pub open spec fn given_back(self) -> RingView<T> {
        RingView { taken: self.gone(), leaving: Seq::empty(), ..self }
    }

    /// A writer puts a value into the next slot.
    pub open spec fn after_put(self, value: T) -> RingView<T> {
        RingView { coming: self.coming.push(value), ..self }
    }

    /// The writer shows the values that it has put in.
    pub open spec fn shown(self) -> RingView<T> {
        RingView { contents: self.contents + self.coming, coming: Seq::empty(), ..self }
    }
}

/// A ring of `capacity` values over `capacity + 1` slots: the spare slot tells
/// a full ring from an empty one.
pub struct Ring<T> {
    buf: RawBuf<T>,
    cap: usize,
    head: usize,
    tail: usize,
    /// How many slots, from the tail on, a reader has emptied and not given back.
    moved: usize,
    /// How many slots, from the head on, a writer has filled and not shown.
    staged: usize,
    taken: Ghost<Seq<T>>,
    leaving: Ghost<Seq<T>>,
}

impl<T> View for Ring<T> {
    type V = RingView<T>;

    closed spec fn view(&self) -> RingView<T> {
        RingView {
            capacity: self.cap as nat,
            taken: self.taken@,
            leaving: self.leaving@,
            contents: self.values(self.moved as int, self.held()),
            coming: self.values(self.held(), self.held() + self.staged),
        }
    }
}

impl<T> Ring<T> {
    /// What each slot holds.
    pub closed spec fn slots(&self) -> Seq<Option<T>> {
        self.buf@
    }

    /// Where values are written next, and where they are read next.
    pub closed spec fn cursors(&self) -> (usize, usize) {
        (self.head, self.tail)
    }

    /// How many slots lie between the cursors.
    spec fn held(&self) -> int {
        distance(self.tail as int, self.head as int, self.buf@.len() as int)
    }

    /// The values in the slots that lie `from` to `to` slots after the tail.
    spec fn values(&self, from: int, to: int) -> Seq<T> {
        Seq::new((to - from) as nat, |k: int| lap(self.buf@, self.tail as int)[from + k]->0)
    }

    /// Both cursors are on a slot, and going round from the tail there come the
    /// slots that a reader has emptied, those that hold a value, and the vacant ones.
    pub closed spec fn wf(&self) -> bool {
        &&& self.wf_size()
        &&& self.head <= self.cap
        &&& self.tail <= self.cap
        &&& self.moved == self.leaving@.len()
        &&& self.moved <= self.held()
        &&& self.held() + self.staged <= self.cap
        &&& forall|k: int|
            0 <= k < self.buf@.len() ==> (#[trigger] lap(self.buf@, self.tail as int)[k] is Some
                <==> self.moved <= k < self.held() + self.staged)
    }

    spec fn wf_size(&self) -> bool {
        &&& self.buf@.len() == self.cap + 1
        &&& self.cap < usize::MAX
    }

    /// All but what the slots hold is the same.
    pub closed spec fn same_but_slots(&self, other: &Ring<T>) -> bool {
        &&& self.cap == other.cap
        &&& self.head == other.head
        &&& self.tail == other.tail
        &&& self.moved == other.moved
        &&& self.staged == other.staged
        &&& self.taken == other.taken
        &&& self.leaving == other.leaving
    }

    /// A ring never holds more than its capacity, whatever is on its way.
    pub proof fn lemma_within_capacity(&self)
        requires
            self.wf(),
        ensures
            self@.used() + self@.coming.len() <= self@.capacity,
    {
    }

    /// The cursors are on slots, there is one slot more than values fit, and what
    /// lies between the cursors is what the ring counts as used.
    pub proof fn law_cursors_and_slots(&self)
        requires
            self.wf(),
        ensures
            self.slots().len() == self@.capacity + 1,
            self.cursors().0 < self.slots().len(),
            self.cursors().1 < self.slots().len(),
            self@.used() == distance(
                self.cursors().1 as int,
                self.cursors().0 as int,
                self.slots().len() as int,
            ),
            self@.used() == (self.cursors().0 - self.cursors().1) % (self.slots().len() as int),
    {
        law_distance_is_modular(self.tail as int, self.head as int, self.buf@.len() as int);
    }

    /// Going round from the tail there come the slots that a reader has emptied
    /// and not given back, those with the values to be read, those with the
    /// values that are yet to be shown, and the vacant ones.
    pub proof fn law_slots_hold_the_values(&self, k: int)
        requires
            self.wf(),
            0 <= k < self.slots().len(),
        ensures
            ({
                let gap = self@.leaving.len() as int;
                let slot = self.slots()[wrap(
                    self.cursors().1 as int,
                    k,
                    self.slots().len() as int,
                )];
                slot == (if gap <= k < self@.used() {
                    Some(self@.contents[k - gap])
                } else if self@.used() <= k < self@.used() + self@.coming.len() {
                    Some(self@.coming[k - self@.used()])
                } else {
                    None
                })
            }),
    {
        assert(lap(self.buf@, self.tail as int)[k] is Some <==> self.moved <= k < self.held()
            + self.staged);
    }

    /// An empty ring with room for `capacity` values.
    pub fn new(capacity: usize) -> (ring: Ring<T>)
        requires
            capacity < usize::MAX,
            slots_fit::<T>(capacity + 1),
        ensures
            ring.wf(),
            ring@ == RingView::<T>::empty(capacity as nat),
            ring@.capacity == capacity,
            ring@.taken.len() == 0,
            ring@.leaving.len() == 0,
            ring@.contents.len() == 0,
            ring@.coming.len() == 0,
            ring.slots() == Seq::new((capacity + 1) as nat, |i: int| None::<T>),
            ring.cursors() == (0usize, 0usize),
    {
        let size: usize = capacity + 1;
        let ring = Ring {
            buf: RawBuf::new(size),
            cap: capacity,
            head: 0,
            tail: 0,
            moved: 0,
            staged: 0,
            taken: Ghost(Seq::empty()),
            leaving: Ghost(Seq::empty()),
        };
        assert(ring@ =~= RingView::<T>::empty(capacity as nat));
        ring
    }

    /// Takes the value itself, not a clone, out of slot `idx`, and leaves
    /// everything else as it is. The count of what is inside is the caller's
    /// affair: the ring is well formed again only once that is right.
    pub fn buf_read(&mut self, idx: usize) -> (value: T)
        requires
            idx < old(self).slots().len(),
            old(self).slots()[idx as int] is Some,
        ensures
            Some(value) == old(self).slots()[idx as int],
            final(self).slots() == old(self).slots().update(idx as int, None),
            final(self).cursors() == old(self).cursors(),
            final(self).same_but_slots(old(self)),
    {
        let ghost before = self.buf@;
        let slots = self.buf.ptr();
        assert(slot_view(slots@[idx as int]) == before[idx as int]);
        let slot = slots[idx].take();
        assert(slots_view(slots@) =~= before.update(idx as int, None));
        ManuallyDrop::into_inner(slot.unwrap())
    }

    /// Puts `value` into slot `idx`, and leaves everything else as it is, as
    /// `buf_read` does.
    pub fn buf_write(&mut self, idx: usize, value: T)
        requires
            idx < old(self).slots().len(),
        ensures
            final(self).slots() == old(self).slots().update(idx as int, Some(value)),
            final(self).cursors() == old(self).cursors(),
            final(self).same_but_slots(old(self)),
    {
        let ghost before = self.buf@;
        let slots = self.buf.ptr();
        slots[idx] = Some(ManuallyDrop::new(value));
        assert(slots_view(slots@) =~= before.update(idx as int, Some(value)));
    }

    /// The number of slots, one more than the capacity.
    pub fn buf_size(&self) -> (size: usize)
        requires
            self.wf(),
        ensures
            size == self@.capacity + 1,
    {
        self.buf.len()
    }

    /// How many slots lie between the cursors.
    pub fn used(&self) -> (used: usize)
        requires
            self.wf(),
        ensures
            used == self@.used(),
            used == self@.leaving.len() + self@.contents.len(),
    {
        if self.head >= self.tail {
            self.head - self.tail
        } else {
            self.buf_size() - (self.tail - self.head)
        }
    }

    /// How many slots a writer may fill before it shows them.
    pub fn free(&self) -> (free: usize)
        requires
            self.wf(),
        ensures
            free == self@.room(),
            free + self@.leaving.len() + self@.contents.len() == self@.capacity,
    {
        self.cap - self.used()
    }

    /// How many values are there to be read.
    pub fn readable(&self) -> (readable: usize)
        requires
            self.wf(),
        ensures
            readable == self@.contents.len(),
    {
        self.used() - self.moved
    }

    /// Whether a writer may fill one more slot before it shows what it has.
    pub fn has_room(&self) -> (room: bool)
        requires
            self.wf(),
        ensures
            room == (self@.coming.len() < self@.room()),
            room == (self@.leaving.len() + self@.contents.len() + self@.coming.len()
                < self@.capacity),
    {
        self.staged < self.free()
    }

    /// The slot `offset` slots after `start`.
    fn slot_after(&self, start: usize, offset: usize) -> (idx: usize)
        requires
            self.wf_size(),
            start < self.buf@.len(),
            offset < self.buf@.len(),
        ensures
            idx == wrap(start as int, offset as int, self.buf@.len() as int),
            idx < self.buf@.len(),
    {
        let size: usize = self.buf.len();
        if offset < size - start {
            start + offset
        } else {
            offset - (size - start)
        }
    }

    /// Takes the oldest value out of its slot.
    pub fn take(&mut self) -> (value: T)
        requires
            old(self).wf(),
            old(self)@.contents.len() > 0,
        ensures
            final(self).wf(),
            final(self)@ == old(self)@.after_take(1),
            value == old(self)@.contents.first(),
            seq![value] + final(self)@.contents == old(self)@.contents,
            final(self)@.leaving == old(self)@.leaving.push(value),
            final(self)@.taken == old(self)@.taken,
            final(self)@.coming == old(self)@.coming,
            final(self)@.capacity == old(self)@.capacity,
    {
        let ghost before = self@;
        let idx: usize = self.slot_after(self.tail, self.moved);
        proof {
            lemma_lap_update(self.buf@, self.tail as int, self.moved as int, None);
            assert(lap(self.buf@, self.tail as int)[self.moved as int] is Some);
        }
        let value = self.buf_read(idx);
        self.moved += 1;
        self.leaving = Ghost(self.leaving@.push(value));
        assert(self@ =~= before.after_take(1));
        value
    }

    /// Gives back the slots that were emptied.
    pub fn give_back(&mut self)
        requires
            old(self).wf(),
        ensures
            final(self).wf(),
            final(self)@ == old(self)@.given_back(),
            final(self)@.taken == old(self)@.taken + old(self)@.leaving,
            final(self)@.leaving.len() == 0,
            final(self)@.contents == old(self)@.contents,
            final(self)@.coming == old(self)@.coming,
            final(self)@.capacity == old(self)@.capacity,
    {
        let ghost before = self@;
        let ghost first = lap(self.buf@, self.tail as int);
        let ghost n = self.moved as int;
        self.tail = self.slot_after(self.tail, self.moved);
        self.moved = 0;
        self.taken = Ghost(self.taken@ + self.leaving@);
        self.leaving = Ghost(Seq::empty());
        proof {
            let size = self.buf@.len() as int;
            assert forall|k: int| 0 <= k < size implies #[trigger] lap(
                self.buf@,
                self.tail as int,
            )[k] == first[wrap(n, k, size)] by {}
            assert(self@ =~= before.given_back());
        }
    }

    /// Puts `value` into the next slot.
    pub fn put(&mut self, value: T)
        requires
            old(self).wf(),
            old(self)@.coming.len() < old(self)@.room(),
        ensures
            final(self).wf(),
            final(self)@ == old(self)@.after_put(value),
            final(self)@.coming == old(self)@.coming.push(value),
            final(self)@.contents == old(self)@.contents,
            final(self)@.leaving == old(self)@.leaving,
            final(self)@.taken == old(self)@.taken,
            final(self)@.capacity == old(self)@.capacity,
    {
        let ghost before = self@;
        let idx: usize = self.slot_after(self.head, self.staged);
        proof {
            lemma_lap_update(
                self.buf@,
                self.tail as int,
                self.held() + self.staged,
                Some(value),
            );
        }
        self.buf_write(idx, value);
        self.staged += 1;
        assert(self@ =~= before.after_put(value));
    }

    /// Shows the values that were put in.
    pub fn show(&mut self)
        requires
            old(self).wf(),
        ensures
            final(self).wf(),
            final(self)@ == old(self)@.shown(),
            final(self)@.contents == old(self)@.contents + old(self)@.coming,
            final(self)@.coming.len() == 0,
            final(self)@.leaving == old(self)@.leaving,
            final(self)@.taken == old(self)@.taken,
            final(self)@.capacity == old(self)@.capacity,
    {
        let ghost before = self@;
        self.head = self.slot_after(self.head, self.staged);
        self.staged = 0;
        assert(self@ =~= before.shown());
    }
}

} // verus!
