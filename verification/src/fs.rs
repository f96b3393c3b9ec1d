//! The byte-stream capability: the one interface every concrete stream kind
//! (on-disk file, pipe endpoint, console, device) implements to consume or
//! fill translated user buffers.
use vstd::prelude::*;
use crate::phys::PhysMem;
use crate::user_buf::UserBuffer;

verus! {

/// A byte-stream capability over scatter/gather user buffers. The stream
/// reads from or writes into the frame arena through the buffer's
/// fragments; how many bytes moved is the stream's own business.
pub trait File {
    /// Whether the stream can serve reads.
    fn readable(&self) -> bool;

    /// Whether the stream can serve writes.
    fn writable(&self) -> bool;

    /// Fill the buffer from the stream; the bytes delivered.
    fn read(&self, mem: &mut PhysMem, buf: UserBuffer) -> usize;

    /// Drain the buffer into the stream; the bytes consumed.
    fn write(&self, mem: &mut PhysMem, buf: UserBuffer) -> usize;

    /// An optional control operation; streams without one answer zero.
    fn ioctl(&self, cmd: u32, arg: usize) -> isize {
        0
    }
}

} // verus!
