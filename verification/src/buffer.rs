use crate::hardware::BufferHandle;
use crate::hardware::Hardware;
use crate::rounding::grow;
use crate::rounding::grown_size;
use crate::storage::vec_capacity;
use std::ops::Range;
use vstd::prelude::*;

verus! {

/// A byte range of a device buffer.
#[derive(Debug)]
pub struct BufferSlice {
    pub handle: BufferHandle,
    pub range: Range<u64>,
}

impl Clone for BufferSlice {
    fn clone(&self) -> (copy: Self)
        ensures
            copy == *self,
    {
        BufferSlice { handle: self.handle, range: self.range.start..self.range.end }
    }
}

/// Bytes staged on the host for a device buffer, sent with [`Buffer::flush`].
#[derive(Debug, Clone)]
pub struct Buffer {
    pub handle: BufferHandle,
    pub data: Vec<u8>,
}

impl View for Buffer {
    type V = Seq<u8>;

    /// The staged bytes.
    open spec fn view(&self) -> Seq<u8> {
        self.data@
    }
}

impl Buffer {
    pub fn new(handle: BufferHandle) -> (buffer: Self)
        ensures
            buffer.handle == handle,
            buffer@ == Seq::<u8>::empty(),
    {
        Self { handle, data: Vec::new() }
    }

    /// The given range of this buffer's device buffer.
    pub fn slice(&self, range: Range<u64>) -> (slice: BufferSlice)
        ensures
            slice.handle == self.handle,
            slice.range == range,
    {
        BufferSlice { handle: self.handle, range }
    }

    /// The range from 0 to the staging capacity.
    pub fn full(&self) -> (slice: BufferSlice)
        ensures
            slice.handle == self.handle,
            slice.range.start == 0,
            slice.range.end >= self@.len(),
    {
        BufferSlice { handle: self.handle, range: 0..self.capacity() }
    }

    /// Stages `data` behind what is staged already.
    pub fn write(&mut self, data: &[u8])
        ensures
            final(self)@ == old(self)@ + data@,
            final(self).handle == old(self).handle,
    {
        self.data.extend_from_slice(data);
    }

    /// The size that the device buffer must be given before the staged bytes
    /// can be sent: `None` where they fit in it as it is.
    pub open spec fn spec_regrow(&self) -> Option<u64> {
        if self@.len() > self.handle.size {
            Some(grown_size(self@.len()) as u64)
        } else {
            None
        }
    }

    /// Decides whether the device buffer has to be replaced by a larger one
    /// before a flush, and how large that one is to be.
    #[verifier::when_used_as_spec(spec_regrow)]
    pub fn regrow(&self) -> (size: Option<u64>)
        ensures
            size == self.spec_regrow(),
    {
        let len: u64 = self.len();
        if len > self.handle.size {
            Some(grow(len))
        } else {
            None
        }
    }

    /// What a flush hands to the device: the handle of the device buffer and the
    /// staged bytes, from the first that was staged to the last.
    pub fn staged(&self) -> (out: (BufferHandle, &[u8]))
        ensures
            out.0 == self.handle,
            out.1@ == self@,
    {
        (self.handle, self.data.as_slice())
    }

    /// Sends the staged bytes to the device and empties the staging area. Where
    /// the bytes do not fit, the device buffer is destroyed first and a new one
    /// of the size that `regrow` gives is created in its place; what number the
    /// device gives the new buffer is the device's choice.
    pub fn flush<H: Hardware>(&mut self, hardware: &mut H)
        ensures
            final(self)@ == Seq::<u8>::empty(),
            old(self).regrow() is None ==> final(self).handle == old(self).handle,
            old(self).regrow() matches Some(size) ==> final(self).handle.size == size,
    {
        match self.regrow() {
            Some(new_size) => {
                hardware.destroy_buffer(self.handle);
                self.handle = hardware.create_buffer("buffer", new_size);
            },
            None => {},
        }
        let (handle, bytes) = self.staged();
        hardware.write_buffer(handle, bytes);
        self.data.clear();
    }

    pub fn len(&self) -> (n: u64)
        ensures
            n == self@.len(),
    {
        self.data.len() as u64
    }

    /// The number of bytes that can be staged without allocating again.
    pub fn capacity(&self) -> (n: u64)
        ensures
            n >= self@.len(),
    {
        vec_capacity(&self.data) as u64
    }
}

} // verus!
