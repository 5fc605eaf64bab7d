use pge::buffer::Buffer;
use pge::hardware::BufferHandle;
use pge::hardware::Hardware;
use pge::rounding::grow;
use std::cell::RefCell;

// Mock implementation of the Hardware trait for testing
struct MockHardware {
    buffers_written: RefCell<Vec<(BufferHandle, Vec<u8>)>>,
    created: Vec<u64>,
    destroyed: Vec<BufferHandle>,
}

impl MockHardware {
    fn new() -> Self {
        MockHardware {
            buffers_written: RefCell::new(Vec::new()),
            created: Vec::new(),
            destroyed: Vec::new(),
        }
    }
}

impl Hardware for MockHardware {
    fn write_buffer(&mut self, handle: BufferHandle, data: &[u8]) {
        self.buffers_written
            .borrow_mut()
            .push((handle, data.to_vec()));
    }

    fn create_buffer(&mut self, _name: &str, size: u64) -> BufferHandle {
        self.created.push(size);
        BufferHandle { id: 99, size }
    }

    fn destroy_buffer(&mut self, handle: BufferHandle) {
        self.destroyed.push(handle);
    }
}

#[test]
fn test_buffer_slice() {
    let handle = BufferHandle { id: 3, size: 1000 };
    let buffer = Buffer::new(handle);
    let slice = buffer.slice(1..3);
    assert_eq!(slice.handle, handle);
    assert_eq!(slice.range, 1..3);
}

#[test]
fn test_buffer_full() {
    let handle = BufferHandle { id: 4, size: 1000 };
    let buffer = Buffer::new(handle);
    let slice = buffer.full();
    assert_eq!(slice.handle, handle);
    assert_eq!(slice.range, 0..0);
}

#[test]
fn test_buffer_flush() {
    let handle = BufferHandle { id: 5, size: 1000 };
    let mut buffer = Buffer::new(handle);
    let mut hardware = MockHardware::new();

    buffer.write(&[10, 20, 30]);
    buffer.flush(&mut hardware);
    assert!(buffer.data.is_empty());

    {
        let written = hardware.buffers_written.borrow();
        assert_eq!(written.len(), 1);
        assert_eq!(written[0].0, handle);
        assert_eq!(written[0].1, vec![10, 20, 30]);
    }

    // Try writing again after flush
    buffer.write(&[40, 50, 60]);
    assert_eq!(buffer.len(), 3);
    buffer.flush(&mut hardware);
    assert!(buffer.data.is_empty());
    let written = hardware.buffers_written.borrow();
    assert_eq!(written.len(), 2);
    assert_eq!(written[1].0, handle);
    assert_eq!(written[1].1, vec![40, 50, 60]);
}

#[test]
fn test_buffer_len_capacity() {
    let handle = BufferHandle { id: 7, size: 1000 };
    let buffer = Buffer::new(handle);
    assert_eq!(buffer.len(), 0);
    // Capacity is implementation-defined, so we test that it's at least len
    assert!(buffer.capacity() >= buffer.len());
}

#[test]
fn flush_replaces_a_buffer_that_is_too_small() {
    let handle = BufferHandle { id: 1, size: 2 };
    let mut buffer = Buffer::new(handle);
    let mut hardware = MockHardware::new();
    buffer.write(&[1, 2, 3, 4, 5]);
    assert_eq!(buffer.regrow(), Some(7));
    buffer.flush(&mut hardware);
    assert_eq!(hardware.destroyed, vec![handle]);
    assert_eq!(hardware.created, vec![7]);
    assert_eq!(buffer.handle, BufferHandle { id: 99, size: 7 });
    assert_eq!(buffer.len(), 0);
    let written = hardware.buffers_written.borrow();
    assert_eq!(written[0].0, BufferHandle { id: 99, size: 7 });
    assert_eq!(written[0].1, vec![1, 2, 3, 4, 5]);
}

#[test]
fn regrow_is_none_while_the_bytes_fit() {
    let mut buffer = Buffer::new(BufferHandle { id: 1, size: 3 });
    buffer.write(&[1, 2, 3]);
    assert_eq!(buffer.regrow(), None);
    buffer.write(&[4]);
    assert_eq!(buffer.regrow(), Some(6));
}

#[test]
fn grow_agrees_with_single_precision_arithmetic() {
    let mut samples: Vec<u64> = vec![
        0, 1, 2, 3, 5, 7, 1000, 1001, 16_777_215, 16_777_216, 16_777_217, 16_777_219,
        11_184_810, 11_184_811, 11_184_812, 33_554_431, 33_554_433, 50_000_001,
        4_294_967_295, 4_294_967_297, 1 << 40, (1 << 40) + 65_537, (1 << 53) + 1,
        u64::MAX / 3, u64::MAX / 2, u64::MAX - 1, u64::MAX,
    ];
    let mut x: u64 = 0x9E37_79B9_7F4A_7C15;
    for _ in 0..2000 {
        x ^= x << 13;
        x ^= x >> 7;
        x ^= x << 17;
        samples.push(x);
        samples.push(x >> 20);
        samples.push(x >> 38);
    }
    for len in samples {
        let expected = (len as f32 * 1.5) as u64;
        assert_eq!(grow(len), expected, "len = {}", len);
    }
}

#[test]
fn grow_exact_values() {
    assert_eq!(grow(0), 0);
    assert_eq!(grow(1), 1);
    assert_eq!(grow(3), 4);
    assert_eq!(grow(1001), 1501);
    assert_eq!(grow(16_777_217), 25_165_824);
    assert_eq!(grow(u64::MAX), u64::MAX);
}
