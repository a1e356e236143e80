//! Many threads on one ring buffer, taking turns in a shuffled order.

use ringbuffer::model::Action;
use ringbuffer::{ReadFull, RingBuffer, WriteFull};
use std::sync::Arc;

const NUM_THREADS: usize = 10;
const NUM_WRITES: usize = 100;
const PIECES_PER_WRITE: usize = 1;
const PIECE_SIZE: usize = 1024;
const RING_SIZE: usize = 10;

/// A call under way, or none.
enum Call<'a, T> {
    Idle,
    Read(ReadFull<T>),
    Write(WriteFull<'a, T>),
}

/// A thread: how many calls it has made, and whether it sleeps. `token` is what
/// waking it leaves behind, as with `std`'s park.
struct Worker<'a, T> {
    writes: Option<&'a Vec<Vec<T>>>,
    made: usize,
    call: Call<'a, T>,
    parked: bool,
    token: bool,
}

/// Runs the writers, each of which makes its writes, and as many values' worth of
/// reads of `amt` by `readers` readers, to the end, and hands each read to `check`.
fn run<T: Clone>(
    ring: &mut RingBuffer<T>,
    writes: &Vec<Vec<Vec<T>>>,
    readers: usize,
    reads: usize,
    amt: usize,
    seed: u64,
    check: &mut dyn FnMut(Vec<T>),
) {
    let mut workers: Vec<Worker<T>> = Vec::new();
    for w in writes {
        workers.push(Worker { writes: Some(w), made: 0, call: Call::Idle, parked: false, token: false });
    }
    for _ in 0..readers {
        workers.push(Worker { writes: None, made: 0, call: Call::Idle, parked: false, token: false });
    }
    let mut random: u64 = seed;
    loop {
        let mut ready: Vec<usize> = Vec::new();
        let mut unfinished: usize = 0;
        for (i, w) in workers.iter().enumerate() {
            let total = match w.writes {
                Some(all) => all.len(),
                None => reads,
            };
            if w.made < total {
                unfinished += 1;
                if !w.parked || w.token {
                    ready.push(i);
                }
            }
        }
        if unfinished == 0 {
            return;
        }
        assert!(ready.len() > 0, "every thread sleeps");
        random = random.wrapping_mul(6364136223846793005).wrapping_add(1442695040888963407);
        let me = ready[(random >> 33) as usize % ready.len()];
        if workers[me].parked {
            workers[me].parked = false;
            workers[me].token = false;
        }
        // A thread takes a few turns before the next one comes.
        for _ in 0..1 + (random >> 20) % 4 {
            let worker = &mut workers[me];
            if let Call::Idle = worker.call {
                worker.call = match worker.writes {
                    Some(all) => Call::Write(WriteFull::new(me as u64, all[worker.made].as_slice())),
                    None => Call::Read(ReadFull::new(me as u64, amt)),
                };
            }
            let action = match &mut worker.call {
                Call::Read(call) => ring.read_full(call),
                Call::Write(call) => ring.write_full(call),
                Call::Idle => unreachable!(),
            };
            match action {
                Action::Continue => {}
                Action::Blocked | Action::Yield => break,
                Action::Unpark(other) => workers[other as usize].token = true,
                Action::Nudge(other) => {
                    workers[other as usize].token = true;
                    break;
                }
                Action::Park => {
                    if worker.token {
                        worker.token = false;
                    } else {
                        worker.parked = true;
                        break;
                    }
                }
                Action::Done => {
                    worker.made += 1;
                    match std::mem::replace(&mut worker.call, Call::Idle) {
                        Call::Read(call) => check(call.finish().unwrap()),
                        Call::Write(call) => call.finish().unwrap(),
                        Call::Idle => unreachable!(),
                    }
                    break;
                }
            }
        }
    }
}

fn pieces(threads: usize, writes: usize, per_write: usize) -> Vec<Vec<Vec<Box<[u8]>>>> {
    let mut all = Vec::new();
    for j in 0..threads {
        let mut mine = Vec::new();
        for i in 0..writes {
            let mut write_me = Vec::<Box<[u8]>>::with_capacity(per_write);
            for k in 0..per_write {
                write_me.push(Box::new([(j * 4 + (i % 2) * 2 + (k % 2)) as u8; PIECE_SIZE]));
            }
            mine.push(write_me);
        }
        all.push(mine);
    }
    all
}

fn check_pieces(read_data: Vec<Box<[u8]>>) {
    for v in 0..read_data.len() {
        if v > 0 {
            assert!(read_data[v][0] % 2 != read_data[v - 1][0] % 2)
        }
        for x in read_data[v].iter() {
            assert!(*x == read_data[v][0]);
        }
    }
}

#[test]
fn mixed_read_writes_no_interleaving() {
    for seed in 0..5 {
        let mut ring = RingBuffer::<Box<[u8]>>::new(RING_SIZE);
        let writes = pieces(NUM_THREADS, NUM_WRITES, PIECES_PER_WRITE);
        let mut reads = 0;
        run(&mut ring, &writes, NUM_THREADS, NUM_WRITES, PIECES_PER_WRITE, seed, &mut |data| {
            reads += 1;
            check_pieces(data);
        });
        assert_eq!(reads, NUM_THREADS * NUM_WRITES);
        assert_eq!(ring.used(), 0);
    }
}

#[test]
fn single_read_write() {
    for seed in 0..5 {
        let mut ring = RingBuffer::<Box<[u8]>>::new(RING_SIZE);
        // As much data as with many threads.
        let writes = pieces(1, NUM_WRITES * NUM_THREADS, PIECES_PER_WRITE);
        let mut reads = 0;
        run(&mut ring, &writes, 1, NUM_WRITES * NUM_THREADS, PIECES_PER_WRITE, seed, &mut |data| {
            reads += 1;
            check_pieces(data);
        });
        assert_eq!(reads, NUM_WRITES * NUM_THREADS);
        assert_eq!(ring.used(), 0);
    }
}

/// Long writes through a short ring: each comes out in one piece.
#[test]
fn long_writes_stay_together() {
    for seed in 0..3 {
        let mut ring = RingBuffer::<Box<[u8]>>::new(RING_SIZE);
        let writes = pieces(NUM_THREADS, 4, 64);
        let mut reads = 0;
        run(&mut ring, &writes, NUM_THREADS, 4, 64, seed, &mut |data| {
            assert_eq!(data.len(), 64);
            for v in 0..data.len() {
                assert_eq!(data[v][0] / 2, data[0][0] / 2);
            }
            reads += 1;
            check_pieces(data);
        });
        assert_eq!(reads, NUM_THREADS * 4);
    }
}

/// The same with calls that spin.
#[test]
fn long_writes_stay_together_spinning() {
    for seed in 0..3 {
        let mut ring = RingBuffer::<Arc<[u8; 2]>>::spinning(RING_SIZE);
        let mut writes = Vec::new();
        for j in 0..NUM_THREADS {
            let mut mine = Vec::new();
            for i in 0..10 {
                let mut write_me = Vec::new();
                for k in 0..512 {
                    write_me.push(Arc::new([(j * 4 + (i % 2) * 2 + (k % 2)) as u8; 2]));
                }
                mine.push(write_me);
            }
            writes.push(mine);
        }
        run(&mut ring, &writes, NUM_THREADS, 10, 512, seed, &mut |data| {
            assert_eq!(data.len(), 512);
            for v in 1..data.len() {
                assert!(data[v][0] % 2 != data[v - 1][0] % 2);
                assert_eq!(data[v][0] / 2, data[0][0] / 2);
                assert_eq!(data[v][0], data[v][1]);
            }
        });
        assert_eq!(ring.used(), 0);
    }
}

/// With one writer and one reader all comes out in order, whatever the sizes.
#[test]
fn values_come_out_in_order() {
    for capacity in 1..8 {
        for amt in 1..9 {
            let mut ring = RingBuffer::<u32>::new(capacity);
            let mut mine = Vec::new();
            let mut n = 0;
            for len in 1..16 {
                let mut write_me = Vec::new();
                for _ in 0..len {
                    write_me.push(n);
                    n += 1;
                }
                mine.push(write_me);
            }
            // One more write, so that the reads come out even.
            let mut rest = Vec::new();
            while n as usize % amt != 0 {
                rest.push(n);
                n += 1;
            }
            mine.push(rest);
            let writes = vec![mine];
            let mut seen = Vec::new();
            run(&mut ring, &writes, 1, n as usize / amt, amt, capacity as u64, &mut |data| {
                assert_eq!(data.len(), amt);
                seen.extend(data);
            });
            assert_eq!(seen, (0..n).collect::<Vec<u32>>());
        }
    }
}

/// Where every call moves as many values, a read is one whole write.
#[test]
fn reads_are_whole_writes() {
    for k in 1..7u32 {
        let mut ring = RingBuffer::<(u32, u32)>::new(9);
        let mut writes = Vec::new();
        for j in 0..4 {
            let mut mine = Vec::new();
            for i in 0..5 {
                mine.push((0..k).map(|part| (j * 5 + i, part)).collect::<Vec<(u32, u32)>>());
            }
            writes.push(mine);
        }
        let mut seen = Vec::new();
        run(&mut ring, &writes, 4, 5, k as usize, k as u64, &mut |data| {
            assert_eq!(data, (0..k).map(|part| (data[0].0, part)).collect::<Vec<(u32, u32)>>());
            seen.push(data[0].0);
        });
        seen.sort();
        assert_eq!(seen, (0..20).collect::<Vec<u32>>());
    }
}

/// Reads that wait and reads that do not share what was written: each value
/// goes to one of them, or is left.
#[test]
fn every_value_goes_to_one_reader() {
    for seed in 0..20u64 {
        let mut ring = RingBuffer::<u32>::new(9);
        let all: Vec<u32> = (0..40).collect();
        let mut writer = WriteFull::new(1, all.as_slice());
        let mut reader = ReadFull::new(2, 15);
        let mut returned: Vec<u32> = Vec::new();
        let mut random = seed;
        let (mut written, mut read) = (false, false);
        while !written || !read {
            random = random.wrapping_mul(6364136223846793005).wrapping_add(1442695040888963407);
            match (random >> 33) % 9 {
                0 if read => returned.extend(ring.read(3).0.unwrap()),
                1..=4 => written = ring.write_full(&mut writer) == Action::Done,
                _ => read = ring.read_full(&mut reader) == Action::Done,
            }
        }
        let first = reader.finish().unwrap();
        assert_eq!(first, (0..15).collect::<Vec<u32>>());
        returned.extend(ring.read(40).0.unwrap());
        assert_eq!(returned, (15..40).collect::<Vec<u32>>());
    }
}

/// Long calls on both sides come to their end also where the ring has no more
/// room than one of them wants at a time.
#[test]
fn long_calls_end_on_a_short_ring() {
    for capacity in 5..9 {
        for seed in 0..10 {
            let mut ring = RingBuffer::<u32>::new(capacity);
            let mut writes = Vec::new();
            for _ in 0..3 {
                writes.push(vec![(0..24).collect::<Vec<u32>>(); 4]);
            }
            let mut reads = 0;
            run(&mut ring, &writes, 3, 4, 24, seed, &mut |data| {
                assert_eq!(data, (0..24).collect::<Vec<u32>>());
                reads += 1;
            });
            assert_eq!(reads, 12);
        }
    }
}
