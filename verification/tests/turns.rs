//! Calls taken turn by turn, one turn of one call after another.

use ringbuffer::model::{Action, WaitStep, BLOCK_SIZE, SPIN_BLOCK_SIZE};
use ringbuffer::{ReadFull, RingBuffer, WriteFull};

/// Takes turns until the call asks for more than to be continued.
fn read_on(ring: &mut RingBuffer<u32>, call: &mut ReadFull<u32>) -> Action {
    loop {
        let action = ring.read_full(call);
        if action != Action::Continue {
            return action;
        }
    }
}

fn write_on(ring: &mut RingBuffer<u32>, call: &mut WriteFull<u32>) -> Action {
    loop {
        let action = ring.write_full(call);
        if action != Action::Continue {
            return action;
        }
    }
}

fn write(ring: &mut RingBuffer<u32>, me: u64, buf: &[u32]) {
    let mut call = WriteFull::new(me, buf);
    assert_eq!(write_on(ring, &mut call), Action::Done);
    assert_eq!(call.finish(), Ok(()));
}

fn read(ring: &mut RingBuffer<u32>, me: u64, amt: usize) -> Vec<u32> {
    let mut call = ReadFull::new(me, amt);
    assert_eq!(read_on(ring, &mut call), Action::Done);
    call.finish().unwrap()
}

#[test]
fn write_then_read() {
    for mut ring in [RingBuffer::new(4), RingBuffer::spinning(4)] {
        write(&mut ring, 1, &[10, 20, 30, 40]);
        assert_eq!(ring.used(), 4);
        assert_eq!(read(&mut ring, 2, 4), vec![10, 20, 30, 40]);
        assert_eq!(ring.used(), 0);
    }
}

#[test]
fn cursors_go_round() {
    let mut ring = RingBuffer::new(3);
    for i in 0..20 {
        write(&mut ring, 1, &[i, i + 100]);
        assert_eq!(ring.used(), 2);
        assert_eq!(read(&mut ring, 2, 2), vec![i, i + 100]);
    }
    write(&mut ring, 1, &[1, 2, 3]);
    assert_eq!(read(&mut ring, 2, 1), vec![1]);
    write(&mut ring, 1, &[4]);
    assert_eq!(read(&mut ring, 2, 3), vec![2, 3, 4]);
}

#[test]
fn empty_calls() {
    let mut ring = RingBuffer::<u32>::new(2);
    let buf = [1, 2, 3];
    let mut long = WriteFull::new(1, &buf);
    assert_eq!(write_on(&mut ring, &mut long), Action::Park);
    // An empty write does not want the lock.
    let mut none = WriteFull::new(2, &[]);
    assert_eq!(ring.write_full(&mut none), Action::Done);
    assert_eq!(none.finish(), Ok(()));
    // An empty read does.
    let mut reader = ReadFull::new(3, 9);
    assert_eq!(ring.read_full(&mut reader), Action::Continue);
    let mut none = ReadFull::new(4, 0);
    assert_eq!(ring.read_full(&mut none), Action::Blocked);
    let mut ring = RingBuffer::<u32>::new(2);
    assert_eq!(read(&mut ring, 4, 0), Vec::<u32>::new());
}

#[test]
fn finish_into_appends() {
    let mut ring = RingBuffer::spinning(3);
    write(&mut ring, 1, &[3, 4]);
    let mut call = ReadFull::new(2, 2);
    assert_eq!(read_on(&mut ring, &mut call), Action::Done);
    let mut buf = vec![1, 2];
    assert_eq!(call.finish_into(&mut buf), Ok(()));
    assert_eq!(buf, vec![1, 2, 3, 4]);
}

#[test]
fn read_takes_what_there_is() {
    let mut ring = RingBuffer::new(5);
    assert_eq!(ring.read(3), (Ok(vec![]), None));
    write(&mut ring, 1, &[1, 2, 3, 4]);
    assert_eq!(ring.read(3), (Ok(vec![1, 2, 3]), None));
    assert_eq!(ring.read(0), (Ok(vec![]), None));
    assert_eq!(ring.read(9), (Ok(vec![4]), None));
    assert_eq!(ring.read(9), (Ok(vec![]), None));
}

#[test]
fn read_gives_way_to_a_reader() {
    let mut ring = RingBuffer::new(5);
    write(&mut ring, 1, &[1, 2]);
    let mut reader = ReadFull::new(2, 2);
    assert_eq!(ring.read_full(&mut reader), Action::Continue);
    assert_eq!(ring.read(2), (Ok(vec![]), None));
    assert_eq!(read_on(&mut ring, &mut reader), Action::Done);
    assert_eq!(reader.finish(), Ok(vec![1, 2]));
}

#[test]
fn read_signals_the_sleeper() {
    let mut ring = RingBuffer::new(2);
    let buf = [1, 2, 3];
    let mut writer = WriteFull::new(7, &buf);
    // Three slots are wanted and only two there: the writer waits.
    assert_eq!(write_on(&mut ring, &mut writer), Action::Park);
    assert_eq!(ring.unpark_thread(), Some(7));
    // Woken, it is content with two.
    assert_eq!(write_on(&mut ring, &mut writer), Action::Park);
    assert_eq!(ring.used(), 2);
    assert_eq!(ring.read(0), (Ok(vec![]), Some(7)));
    assert_eq!(ring.read(1), (Ok(vec![1]), Some(7)));
    assert_eq!(write_on(&mut ring, &mut writer), Action::Done);
    assert_eq!(ring.read(5), (Ok(vec![2, 3]), None));
}

#[test]
fn lock_is_kept_to_the_end_of_a_write() {
    let mut ring = RingBuffer::new(4);
    let (a, b) = ([1, 2, 3, 4, 5, 6], [9]);
    let mut first = WriteFull::new(1, &a);
    let mut second = WriteFull::new(2, &b);
    assert_eq!(write_on(&mut ring, &mut first), Action::Park);
    assert_eq!(write_on(&mut ring, &mut second), Action::Blocked);
    let mut reader = ReadFull::new(3, 7);
    assert_eq!(read_on(&mut ring, &mut reader), Action::Nudge(1));
    assert_eq!(write_on(&mut ring, &mut second), Action::Blocked);
    // Four slots are free, and the writer takes them.
    assert_eq!(write_on(&mut ring, &mut first), Action::Park);
    assert_eq!(read_on(&mut ring, &mut reader), Action::Nudge(1));
    assert_eq!(write_on(&mut ring, &mut first), Action::Park);
    assert_eq!(write_on(&mut ring, &mut second), Action::Blocked);
    let mut other = ReadFull::new(4, 1);
    assert_eq!(read_on(&mut ring, &mut other), Action::Blocked);
    assert_eq!(ring.used(), 4);
}

#[test]
fn short_supply_is_waited_for_once() {
    assert_eq!(BLOCK_SIZE, 5);
    let mut ring = RingBuffer::new(10);
    let mut reader = ReadFull::new(1, 10);
    assert_eq!(read_on(&mut ring, &mut reader), Action::Park);
    // Not signalled: it sleeps on.
    assert_eq!(ring.read_full(&mut reader), Action::Park);
    let mut writer = WriteFull::new(2, &[1, 2, 3]);
    assert_eq!(write_on(&mut ring, &mut writer), Action::Unpark(1));
    assert_eq!(write_on(&mut ring, &mut writer), Action::Done);
    // Woken, it takes three, though it wanted five; then it sleeps again.
    assert_eq!(read_on(&mut ring, &mut reader), Action::Park);
    assert_eq!(ring.used(), 0);
    let mut writer = WriteFull::new(2, &[4, 5, 6, 7, 8, 9, 10]);
    assert_eq!(write_on(&mut ring, &mut writer), Action::Unpark(1));
    assert_eq!(read_on(&mut ring, &mut reader), Action::Done);
    assert_eq!(reader.finish(), Ok(vec![1, 2, 3, 4, 5, 6, 7, 8, 9, 10]));
    assert_eq!(write_on(&mut ring, &mut writer), Action::Done);
}

#[test]
fn spinning_calls_yield() {
    assert_eq!(SPIN_BLOCK_SIZE, 1);
    let mut ring = RingBuffer::spinning(2);
    let mut reader = ReadFull::new(1, 3);
    assert_eq!(read_on(&mut ring, &mut reader), Action::Yield);
    let buf = [1, 2, 3];
    let mut writer = WriteFull::new(2, &buf);
    // Two fit at once; the third waits for room.
    assert_eq!(write_on(&mut ring, &mut writer), Action::Yield);
    assert_eq!(ring.used(), 2);
    assert_eq!(read_on(&mut ring, &mut reader), Action::Yield);
    assert_eq!(write_on(&mut ring, &mut writer), Action::Done);
    assert_eq!(read_on(&mut ring, &mut reader), Action::Done);
    assert_eq!(reader.finish(), Ok(vec![1, 2, 3]));
}

#[test]
fn slots_count_until_given_back_and_once_shown() {
    let mut ring = RingBuffer::new(4);
    let mut writer = WriteFull::new(1, &[1, 2]);
    for _ in 0..4 {
        // Lock, settle, and put two values in: none is shown yet.
        assert_eq!(ring.write_full(&mut writer), Action::Continue);
        assert_eq!(ring.used(), 0);
    }
    assert_eq!(ring.write_full(&mut writer), Action::Continue);
    assert_eq!(ring.used(), 2);
    let mut reader = ReadFull::new(2, 2);
    for _ in 0..4 {
        // Lock, settle, and take two values out: no slot is given back yet.
        assert_eq!(ring.read_full(&mut reader), Action::Continue);
        assert_eq!(ring.used(), 2);
    }
    assert_eq!(ring.read_full(&mut reader), Action::Continue);
    assert_eq!(ring.used(), 0);
    assert_eq!(read_on(&mut ring, &mut reader), Action::Done);
    assert_eq!(write_on(&mut ring, &mut writer), Action::Done);
    assert_eq!(reader.finish(), Ok(vec![1, 2]));
}

#[test]
fn reading_and_writing_overlap() {
    let mut ring = RingBuffer::new(4);
    write(&mut ring, 1, &[1, 2, 3]);
    let mut reader = ReadFull::new(2, 3);
    let mut writer = WriteFull::new(1, &[4]);
    // Turn about: the reader empties slots while the writer fills one.
    let mut done = 0;
    while done < 2 {
        done = 0;
        if ring.read_full(&mut reader) == Action::Done {
            done += 1;
        }
        if ring.write_full(&mut writer) == Action::Done {
            done += 1;
        }
    }
    assert_eq!(reader.finish(), Ok(vec![1, 2, 3]));
    assert_eq!(ring.read(4), (Ok(vec![4]), None));
}

#[test]
fn waiting_takes_the_one_place() {
    let mut ring = RingBuffer::<u32>::new(1);
    assert_eq!(ring.unpark_thread(), None);
    assert_eq!(ring.wait(1, false), WaitStep::Park);
    assert_eq!(ring.wait(1, true), WaitStep::Park);
    // Another thread finds the place taken, and signals.
    assert_eq!(ring.wait(2, false), WaitStep::Nudge(1));
    assert_eq!(ring.wait(2, false), WaitStep::Nudge(1));
    assert_eq!(ring.wait(1, true), WaitStep::Resume);
    assert_eq!(ring.wait(2, false), WaitStep::Park);
    assert_eq!(ring.wait(2, true), WaitStep::Park);
    assert_eq!(ring.unpark_thread(), Some(2));
    assert_eq!(ring.wait(2, true), WaitStep::Resume);
    assert_eq!(ring.wait(2, true), WaitStep::Park);
}

#[test]
fn no_two_calls_sleep() {
    let mut ring = RingBuffer::new(3);
    let buf = [1, 2, 3, 4, 5, 6];
    let mut writer = WriteFull::new(1, &buf);
    let mut reader = ReadFull::new(2, 6);
    // Neither finds the five that it wants, but only the first sleeps.
    assert_eq!(write_on(&mut ring, &mut writer), Action::Park);
    assert_eq!(read_on(&mut ring, &mut reader), Action::Nudge(1));
    assert_eq!(write_on(&mut ring, &mut writer), Action::Park);
    assert_eq!(ring.used(), 3);
    assert_eq!(read_on(&mut ring, &mut reader), Action::Nudge(1));
    // The place is free again, and now the reader sleeps there.
    assert_eq!(ring.write_full(&mut writer), Action::Continue);
    assert_eq!(read_on(&mut ring, &mut reader), Action::Park);
    assert_eq!(write_on(&mut ring, &mut writer), Action::Unpark(2));
    assert_eq!(write_on(&mut ring, &mut writer), Action::Nudge(2));
    assert_eq!(read_on(&mut ring, &mut reader), Action::Park);
    assert_eq!(write_on(&mut ring, &mut writer), Action::Unpark(2));
    assert_eq!(write_on(&mut ring, &mut writer), Action::Done);
    assert_eq!(read_on(&mut ring, &mut reader), Action::Done);
    assert_eq!(reader.finish(), Ok(vec![1, 2, 3, 4, 5, 6]));
}

#[test]
fn wait_used_and_wait_free() {
    let mut ring = RingBuffer::new(4);
    write(&mut ring, 1, &[1, 2, 3]);
    assert_eq!(ring.wait_used(3, false), Some(3));
    assert_eq!(ring.wait_used(4, false), None);
    assert_eq!(ring.wait_used(4, true), Some(3));
    assert_eq!(ring.wait_free(1, false), Some(1));
    assert_eq!(ring.wait_free(2, false), None);
    assert_eq!(ring.wait_free(2, true), Some(1));
}

#[test]
fn no_capacity_nothing_passes() {
    let mut ring = RingBuffer::new(0);
    let mut writer = WriteFull::new(1, &[1]);
    assert_eq!(write_on(&mut ring, &mut writer), Action::Park);
    let mut reader = ReadFull::new(2, 1);
    for _ in 0..10 {
        assert_eq!(read_on(&mut ring, &mut reader), Action::Nudge(1));
        assert_eq!(write_on(&mut ring, &mut writer), Action::Park);
    }
    assert_eq!(ring.used(), 0);
    assert_eq!(ring.wait_free(0, false), Some(0));
}

#[test]
fn finished_calls_stay_finished() {
    let mut ring = RingBuffer::new(2);
    let mut writer = WriteFull::new(1, &[5]);
    assert_eq!(write_on(&mut ring, &mut writer), Action::Done);
    assert_eq!(ring.write_full(&mut writer), Action::Done);
    assert_eq!(ring.used(), 1);
    let mut reader = ReadFull::new(1, 1);
    assert_eq!(read_on(&mut ring, &mut reader), Action::Done);
    assert_eq!(ring.read_full(&mut reader), Action::Done);
    assert_eq!(reader.finish(), Ok(vec![5]));
}

#[test]
fn history_of_one_thread() {
    let mut ring = RingBuffer::new(5);
    let (mut given, mut got) = (Vec::new(), Vec::new());
    let mut next = 0;
    for round in 0..30 {
        let len = (round * 7) % 6;
        while ring.wait_free(len, false).is_none() {
            got.extend(ring.read(1 + round % 3).0.unwrap());
        }
        let values: Vec<u32> = (next..next + len as u32).collect();
        next += len as u32;
        write(&mut ring, 1, &values);
        given.extend(values);
        if ring.used() > 2 {
            got.extend(read(&mut ring, 1, 2));
        }
    }
    got.extend(ring.read(5).0.unwrap());
    assert_eq!(got, given);
    assert_eq!(ring.used(), 0);
}

#[test]
fn write_then_read_on_a_used_ring() {
    let mut ring = RingBuffer::new(3);
    write(&mut ring, 1, &[1, 2]);
    assert_eq!(ring.read(2).0, Ok(vec![1, 2]));
    write(&mut ring, 1, &[3, 4, 5]);
    assert_eq!(read(&mut ring, 1, 3), vec![3, 4, 5]);
}
