use ringbuffer::ring::Ring;
use ringbuffer::{RawBuf, RingBuffer};
use std::cell::Cell;
use std::mem::ManuallyDrop;
use std::rc::Rc;

#[derive(Clone)]
struct Counted(Rc<Cell<u32>>);

impl Drop for Counted {
    fn drop(&mut self) {
        self.0.set(self.0.get() + 1);
    }
}

#[test]
fn new_storage_is_vacant() {
    let mut raw = RawBuf::<u8>::new(4);
    assert_eq!(raw.len(), 4);
    assert_eq!(raw.ptr().len(), 4);
    for slot in raw.ptr().iter() {
        assert!(slot.is_none());
    }
    assert_eq!(RawBuf::<u8>::new(0).len(), 0);
}

#[test]
fn slots_keep_what_is_put_in() {
    let mut raw = RawBuf::<u8>::new(3);
    raw.ptr()[1] = Some(ManuallyDrop::new(7));
    assert!(raw.ptr()[0].is_none());
    assert_eq!(raw.ptr()[1].take().map(ManuallyDrop::into_inner), Some(7));
    assert!(raw.ptr()[1].is_none());
    assert_eq!(raw.len(), 3);
}

#[test]
fn values_left_in_storage_are_not_dropped() {
    let drops = Rc::new(Cell::new(0));
    let mut raw = RawBuf::<Counted>::new(2);
    raw.ptr()[0] = Some(ManuallyDrop::new(Counted(drops.clone())));
    drop(raw);
    assert_eq!(drops.get(), 0);
}

#[test]
fn fits_up_to_the_largest_allocation() {
    let unit = std::mem::size_of::<Option<ManuallyDrop<u64>>>();
    let most = isize::MAX as usize / unit;
    assert!(RawBuf::<u64>::fits(0));
    assert!(RawBuf::<u64>::fits(most));
    assert!(!RawBuf::<u64>::fits(most + 1));
    assert!(!RawBuf::<u64>::fits(usize::MAX));
    assert!(RingBuffer::<u64>::fits(most - 1));
    assert!(!RingBuffer::<u64>::fits(most));
    assert!(!RingBuffer::<u64>::fits(usize::MAX));
}

#[test]
fn ring_slots_keep_the_value_itself() {
    let drops = Rc::new(Cell::new(0));
    let mut ring = Ring::<Counted>::new(2);
    ring.buf_write(2, Counted(drops.clone()));
    let value = ring.buf_read(2);
    assert!(Rc::ptr_eq(&value.0, &drops));
    assert_eq!(drops.get(), 0);
    assert_eq!(Rc::strong_count(&drops), 2);
    drop(value);
    assert_eq!(drops.get(), 1);
}

#[test]
fn values_stand_in_slots_from_the_tail_on() {
    let mut ring = Ring::<u32>::new(2);
    assert_eq!(ring.buf_size(), 3);
    for value in [1, 2] {
        ring.put(value);
    }
    ring.show();
    assert_eq!(ring.take(), 1);
    ring.give_back();
    ring.put(3);
    ring.show();
    // The tail is on slot 1, and the head has gone round to slot 0.
    assert_eq!(ring.used(), 2);
    assert_eq!(ring.take(), 2);
    ring.give_back();
    ring.put(4);
    ring.show();
    assert_eq!(ring.buf_read(2), 3);
    assert_eq!(ring.buf_read(0), 4);
}
