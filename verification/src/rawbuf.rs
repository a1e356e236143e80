//! A fixed number of slots, each of which holds a value or is vacant.

use core::mem::ManuallyDrop;
use vstd::prelude::*;

verus! {

/// What a slot holds, seen through the `ManuallyDrop` around it.
pub open spec fn slot_view<T>(slot: Option<ManuallyDrop<T>>) -> Option<T> {
    match slot {
        Some(value) => Some(value@),
        None => None,
    }
}

/// What each of a row of slots holds.
pub open spec fn slots_view<T>(slots: Seq<Option<ManuallyDrop<T>>>) -> Seq<Option<T>> {
    Seq::new(slots.len(), |i: int| slot_view(slots[i]))
}

/// `size` slots for values of type `T` fit into memory that can be asked for at
/// all: more than `isize::MAX` bytes cannot.
pub open spec fn slots_fit<T>(size: int) -> bool {
    size * vstd::layout::size_of::<Option<ManuallyDrop<T>>>() <= isize::MAX
}

/// Storage for a fixed number of values.
///
/// Dropping the storage does not drop the values that are still in it: whoever
/// owns it is responsible for the values that were put there.
pub struct RawBuf<T> {
    slots: Vec<Option<ManuallyDrop<T>>>,
}

impl<T> View for RawBuf<T> {
    type V = Seq<Option<T>>;

    closed spec fn view(&self) -> Seq<Option<T>> {
        slots_view(self.slots@)
    }
}

impl<T> RawBuf<T> {
    /// Whether `size` slots can be asked for.
    pub fn fits(size: usize) -> (fits: bool)
        ensures
            fits == slots_fit::<T>(size as int),
            fits == (size * vstd::layout::size_of::<Option<ManuallyDrop<T>>>() <= isize::MAX),
    {
        let unit: usize = core::mem::size_of::<Option<ManuallyDrop<T>>>();
        match size.checked_mul(unit) {
            Some(bytes) => bytes <= isize::MAX as usize,
            None => false,
        }
    }

    /// Storage for `size` values, all of it vacant.
    pub fn new(size: usize) -> (raw: RawBuf<T>)
        requires
            slots_fit::<T>(size as int),
        ensures
            raw@ == Seq::new(size as nat, |i: int| None::<T>),
            raw@.len() == size,
            forall|i: int| 0 <= i < size ==> #[trigger] raw@[i] is None,
    {
        let mut slots: Vec<Option<ManuallyDrop<T>>> = Vec::with_capacity(size);
        while slots.len() < size
            invariant
                slots.len() <= size,
                forall|i: int| 0 <= i < slots.len() ==> slots@[i] is None,
            decreases size - slots.len(),
        {
            slots.push(None);
        }
        let raw = RawBuf { slots };
        assert(raw@ =~= Seq::new(size as nat, |i: int| None::<T>));
        raw
    }

    /// The slots themselves, to read from and write to.
    pub fn ptr(&mut self) -> (slots: &mut [Option<ManuallyDrop<T>>])
        ensures
            slots_view(slots@) == old(self)@,
            final(self)@ == slots_view(final(slots)@),
            slots@.len() == old(self)@.len(),
            forall|i: int|
                0 <= i < slots@.len() ==> (#[trigger] slots@[i] is Some <==> old(self)@[i] is Some),
            forall|i: int|
                0 <= i < slots@.len() && #[trigger] slots@[i] is Some ==> (slots@[i]->0)@
                    == old(self)@[i]->0,
            final(self)@.len() == final(slots)@.len(),
            forall|i: int|
                0 <= i < final(slots)@.len() ==> (#[trigger] final(slots)@[i] is Some
                    <==> final(self)@[i] is Some),
            forall|i: int|
                0 <= i < final(slots)@.len() && #[trigger] final(slots)@[i] is Some ==> (
                    final(slots)@[i]->0)@ == final(self)@[i]->0,
    {
        self.slots.as_mut_slice()
    }

    /// How many values there is room for.
    pub fn len(&self) -> (len: usize)
        ensures
            len == self@.len(),
    {
        self.slots.len()
    }
}

} // verus!
