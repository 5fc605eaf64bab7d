use crate::hardware::BufferHandle;
use crate::hardware::Hardware;
use vstd::prelude::*;

verus! {

/// A buffer that the mock device was asked to create.
pub struct MockBuffer {
    pub name: String,
    pub size: u64,
    pub id: u32,
}

/// A device that draws nothing and only keeps count of the buffers created.
pub struct MockHardware {
    pub buffers: Vec<MockBuffer>,
}

impl MockHardware {
    pub fn new() -> (hardware: Self)
        ensures
            hardware.buffers@.len() == 0,
    {
        Self { buffers: Vec::new() }
    }
}

impl Hardware for MockHardware {
    /// Records the buffer and numbers it by the count of buffers before it.
    fn create_buffer(&mut self, name: &str, size: u64) -> (handle: BufferHandle)
        ensures
            handle.id == old(self).buffers@.len() as u32,
            handle.size == size,
            final(self).buffers@.len() == old(self).buffers@.len() + 1,
            final(self).buffers@.last().id == handle.id,
            final(self).buffers@.last().size == size,
            final(self).buffers@.last().name@ == name@,
            final(self).buffers@.drop_last() == old(self).buffers@,
    {
        let id: u32 = self.buffers.len() as u32;
        self.buffers.push(MockBuffer { name: name.to_owned(), size, id });
        assert(self.buffers@.drop_last() == old(self).buffers@);
        BufferHandle { id, size }
    }
}

} // verus!
