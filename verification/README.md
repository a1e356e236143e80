# ringbuffer

A bounded FIFO for many writing and many reading threads, verified with Verus.

A call that moves values may have to wait for a lock, for values or for free
slots, so each call goes forward in turns. A turn is a verified function from
the ring buffer and the call to both of them afterwards, and to what the calling
thread does next: come back, yield, wake another thread, sleep.

- `src/rawbuf.rs`: the slots.
- `src/ring.rs`: slots and cursors; values go out and come in one by one, and
  slots are given back, or values shown, all at once.
- `src/model.rs`: the ring buffer and its calls as a state machine.
- `src/ringbuffer.rs`: the executable ring buffer, proved to take the steps of
  the state machine.
- `src/system.rs`: a ring buffer with every call ever made on it, and what holds
  of it in every state, whatever the order of the turns.
- `src/laws.rs`: what follows: first in, first out; every value read was written,
  and goes to one reader; calls that do not interleave; no lost signal; no deadlock.
- `src/counts.rs`: nothing is lost and nothing appears, counted over all calls.
- `src/fair.rs`: every call comes to its end.
- `src/alone.rs`: what calls do when nothing comes in between.
- `app/`: threads, locks and sleep around the library, and a program that
  measures it.
