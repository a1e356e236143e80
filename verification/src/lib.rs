//! Bounded FIFO ring buffers whose behaviour is stated in contracts and proved.

pub mod alone;
pub mod counts;
pub mod fair;
pub mod laws;
pub mod model;
pub mod rawbuf;
pub mod ring;
pub mod ringbuffer;
pub mod system;
pub mod turns;

pub use crate::rawbuf::RawBuf;
pub use crate::ringbuffer::{ReadFull, RingBuffer, WriteFull};
