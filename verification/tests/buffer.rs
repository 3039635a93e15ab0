//! Buffers, backed by the allocator or by the heap.
use hugalloc::{
    allocate, allocate_mapped, builder, AllocError, Allocation, Buffer, GlobalStealer, Handle, Hint, RawBuffer,
    Settings, Step, ThreadLocalStealer,
};
use std::cell::Cell;
use std::rc::Rc;

/// The allocator with one thread, on a system that maps areas at made-up addresses.
struct Machine {
    global: GlobalStealer,
    thread: ThreadLocalStealer,
    settings: Settings,
    next_addr: usize,
    cleared: Vec<Hint>,
}

impl Machine {
    fn new() -> Self {
        let mut global = GlobalStealer::new();
        let thread = ThreadLocalStealer::new(&mut global, 1);
        Machine {
            global,
            thread,
            settings: Settings::default(),
            next_addr: 1 << 40,
            cleared: Vec::new(),
        }
    }

    fn map(&mut self, len: usize) -> usize {
        let addr = self.next_addr;
        self.next_addr += len;
        addr
    }

    fn clear(&mut self, handle: Handle) {
        self.cleared.push(handle.fast_clear());
        self.global.return_cleared(handle);
    }

    fn allocate<T>(&mut self, capacity: usize) -> Result<Allocation, AllocError> {
        let step = loop {
            match allocate::<T>(&self.thread, &mut self.global, self.settings, capacity) {
                Step::Again => {}
                step => break step,
            }
        };
        let step = match step {
            Step::NeedArea(request) => {
                let addr = self.map(request.len);
                allocate_mapped::<T>(
                    &self.thread,
                    &mut self.global,
                    self.settings,
                    request,
                    Ok(addr),
                )
            }
            step => step,
        };
        match step {
            Step::Done(result) => result,
            Step::Clear(handle, result) => {
                self.clear(handle);
                result
            }
            Step::NeedArea(_) | Step::Again => panic!("an area was handed in"),
        }
    }

    fn release(&mut self, handle: Handle) {
        let to_clear = self.thread.release(&mut self.global, self.settings, handle);
        if let Some(handle) = to_clear {
            self.clear(handle);
        }
    }
}

fn initialize(machine: &mut Machine) {
    builder().enable().apply(&mut machine.settings);
}

/// What the allocator gives for `n` elements, with memory for them.
fn ask<T>(machine: &mut Machine, n: usize) -> Result<(Vec<T>, usize, Handle), AllocError> {
    let (_, cap, handle) = machine.allocate::<T>(n)?;
    Ok((Vec::with_capacity(cap), cap, handle))
}

#[test]
fn rawbuffer_with_capacity_lgalloc() {
    let mut machine = Machine::new();
    initialize(&mut machine);
    let raw: RawBuffer<u8> = RawBuffer::with_capacity(2 << 20, ask(&mut machine, 2 << 20));
    assert!(raw.capacity() >= 2 << 20);
    assert!(raw.is_lgalloc());
}

#[test]
fn elements_are_in_the_memory_that_was_given() {
    let mut machine = Machine::new();
    initialize(&mut machine);
    let (storage, cap, handle) = ask::<u64>(&mut machine, 1 << 18).expect("alloc");
    let given = storage.as_ptr();
    let raw = RawBuffer::try_lgalloc(1 << 18, Ok((storage, cap, handle))).expect("alloc");
    let (mut storage, cap, handle) = raw.into_raw_parts();
    assert_eq!(storage.as_ptr(), given);
    storage.push(7);
    let mut buffer = RawBuffer::from_raw_parts(storage, cap, handle).assume_init_buffer(1);
    assert_eq!(buffer.as_slice().as_ptr(), given);
    buffer.push(8);
    assert_eq!(buffer.as_slice(), &[7, 8]);
    let (raw, len) = buffer.into_raw_parts();
    assert_eq!(len, 2);
    let (storage, _, handle) = raw.into_raw_parts();
    assert_eq!(storage.as_ptr(), given);
    assert_eq!(storage, [7, 8]);
    machine.release(handle.expect("memory of the allocator"));

    let allocated = ask::<u64>(&mut machine, 1 << 18).expect("alloc");
    let given = allocated.0.as_ptr();
    let buffer: Buffer<u64> = Buffer::with_capacity(1 << 18, Ok(allocated));
    assert_eq!(buffer.as_slice().as_ptr(), given);
}

#[test]
fn rawbuffer_heap_forces_fallback() {
    let raw: RawBuffer<u64> = RawBuffer::heap(1024);
    assert_eq!(raw.capacity(), 1024);
    assert!(!raw.is_lgalloc());
}

#[test]
fn rawbuffer_try_lgalloc_returns_when_disabled() {
    let mut machine = Machine::new();
    // Disable the allocator. try_lgalloc should err with Disabled.
    builder().disable().apply(&mut machine.settings);
    let r: Result<RawBuffer<u8>, AllocError> = RawBuffer::try_lgalloc(2 << 20, ask(&mut machine, 2 << 20));
    assert!(matches!(r, Err(AllocError::Disabled)));
    // It works again once enabled.
    initialize(&mut machine);
    let r: Result<RawBuffer<u8>, AllocError> = RawBuffer::try_lgalloc(2 << 20, ask(&mut machine, 2 << 20));
    assert!(r.is_ok());
}

#[test]
fn rawbuffer_into_raw_parts_roundtrip() {
    let mut machine = Machine::new();
    initialize(&mut machine);
    let raw: RawBuffer<u32> = RawBuffer::with_capacity(4096, ask(&mut machine, 4096));
    let cap = raw.capacity();
    let is_lg = raw.is_lgalloc();
    let (storage, cap2, handle) = raw.into_raw_parts();
    assert_eq!(cap, cap2);
    assert_eq!(handle.is_some(), is_lg);
    let rebuilt = RawBuffer::<u32>::from_raw_parts(storage, cap2, handle);
    assert_eq!(rebuilt.capacity(), cap);
    assert_eq!(rebuilt.is_lgalloc(), is_lg);
}

#[test]
fn buffer_push_extend_clear() {
    let mut machine = Machine::new();
    initialize(&mut machine);
    let mut buf: Buffer<u32> = Buffer::with_capacity(16, ask(&mut machine, 16));
    assert_eq!(buf.len(), 0);
    assert!(buf.capacity() >= 16);
    buf.push(1);
    buf.push(2);
    buf.extend_from_slice(&[3, 4, 5]);
    assert_eq!(&*buf, &[1, 2, 3, 4, 5]);
    buf.clear();
    assert_eq!(buf.len(), 0);
    assert!(buf.is_empty());
}

/// Counts its drops.
struct Counter(Rc<Cell<usize>>);

impl Drop for Counter {
    fn drop(&mut self) {
        self.0.set(self.0.get() + 1);
    }
}

#[test]
fn buffer_drop_runs_element_destructors() {
    let drops = Rc::new(Cell::new(0));
    {
        let mut buf: Buffer<Counter> = Buffer::heap(8);
        buf.push(Counter(drops.clone()));
        buf.push(Counter(drops.clone()));
        buf.push(Counter(drops.clone()));
    }
    assert_eq!(drops.get(), 3);
}

#[test]
fn buffer_clear_runs_element_destructors() {
    let drops = Rc::new(Cell::new(0));
    let mut buf: Buffer<Counter> = Buffer::heap(2);
    buf.push(Counter(drops.clone()));
    let capacity = buf.capacity();
    buf.clear();
    assert_eq!(drops.get(), 1);
    assert_eq!(buf.capacity(), capacity);
    buf.push(Counter(drops.clone()));
    assert_eq!(buf.len(), 1);
}

#[test]
fn buffer_assume_init_roundtrip() {
    let mut machine = Machine::new();
    initialize(&mut machine);
    let raw: RawBuffer<u64> = RawBuffer::with_capacity(64, ask(&mut machine, 64));
    let (mut storage, capacity, handle) = raw.into_raw_parts();
    for i in 0..64 {
        storage.push(i as u64);
    }
    let raw = RawBuffer::from_raw_parts(storage, capacity, handle);
    let buf: Buffer<u64> = raw.assume_init_buffer(64);
    assert_eq!(buf.len(), 64);
    assert_eq!(buf[0], 0);
    assert_eq!(buf[63], 63);
}

#[test]
fn assume_init_forgets_the_rest() {
    let drops = Rc::new(Cell::new(0));
    let mut buf: Buffer<Counter> = Buffer::heap(4);
    buf.push(Counter(drops.clone()));
    buf.push(Counter(drops.clone()));
    buf.push(Counter(drops.clone()));
    let (raw, len) = buf.into_raw_parts();
    assert_eq!(len, 3);
    let buf = raw.assume_init_buffer(1);
    assert_eq!(buf.len(), 1);
    drop(buf);
    assert_eq!(drops.get(), 1);
}

#[test]
fn rawbuffer_zero_capacity_is_not_lgalloc() {
    let mut machine = Machine::new();
    initialize(&mut machine);
    let raw: RawBuffer<u8> = RawBuffer::with_capacity(0, ask(&mut machine, 0));
    // Zero-capacity allocations return a dangling handle; is_lgalloc should
    // not lie and claim these are pool-backed.
    assert!(!raw.is_lgalloc());
    assert_eq!(raw.capacity(), 0);
}

#[test]
fn heap_of_zero_sized_elements_has_room_without_limit() {
    let mut buf: Buffer<()> = Buffer::heap(3);
    assert_eq!(buf.capacity(), usize::MAX);
    buf.push(());
    assert_eq!(buf.len(), 1);
}

#[test]
fn heap_capacity_is_what_was_asked_for() {
    let raw: RawBuffer<u8> = RawBuffer::heap(0);
    assert_eq!(raw.capacity(), 0);
    assert!(raw.release().is_none());
    let raw: RawBuffer<[u8; 3]> = RawBuffer::heap(5);
    assert_eq!(raw.capacity(), 5);
    assert!(raw.release().is_none());
    let buf: Buffer<u64> = Buffer::heap(2);
    assert_eq!(buf.capacity(), 2);
}

#[test]
fn rawbuffer_does_not_drop_elements() {
    let drops = Rc::new(Cell::new(0));
    let mut buf: Buffer<Counter> = Buffer::heap(4);
    buf.push(Counter(drops.clone()));
    buf.push(Counter(drops.clone()));
    let (raw, _) = buf.into_raw_parts();
    assert!(raw.release().is_none());
    assert_eq!(drops.get(), 0);
    let mut buf: Buffer<Counter> = Buffer::heap(4);
    buf.push(Counter(drops.clone()));
    drop(buf.into_raw_parts());
    assert_eq!(drops.get(), 0);
}

#[test]
fn with_capacity_falls_back_whatever_the_error() {
    let errors = [
        AllocError::Disabled,
        AllocError::OutOfMemory,
        AllocError::InvalidSizeClass(64),
        AllocError::UnalignedMemory,
        AllocError::Io(std::io::Error::from(std::io::ErrorKind::OutOfMemory)),
    ];
    for error in errors {
        let buf: Buffer<u64> = Buffer::with_capacity(100, Err(error));
        assert_eq!(buf.capacity(), 100);
        assert!(!buf.is_lgalloc());
    }
}

#[test]
fn buffer_never_grows() {
    let mut machine = Machine::new();
    initialize(&mut machine);
    let mut buf: Buffer<u64> = Buffer::with_capacity(1 << 18, ask(&mut machine, 1 << 18));
    for _ in 0..3 {
        buf.push(1);
        buf.extend_from_slice(&[2, 3]);
        assert_eq!(buf.capacity(), 1 << 18);
        assert!(buf.is_lgalloc());
        assert!(!buf.is_empty());
        buf.clear();
        buf.clear();
        assert_eq!(buf.capacity(), 1 << 18);
        assert!(buf.is_lgalloc());
        assert!(buf.is_empty());
    }
}

#[test]
fn buffer_slice_is_writable() {
    let mut buf: Buffer<u16> = Buffer::heap(4);
    buf.extend_from_slice(&[1, 2, 3]);
    buf.as_mut_slice()[1] = 9;
    assert_eq!(buf.as_slice(), &[1, 9, 3]);
}

#[test]
fn buffer_from_allocator_keeps_its_handle() {
    let mut machine = Machine::new();
    initialize(&mut machine);
    let mut buf: Buffer<u64> = Buffer::try_lgalloc(1 << 18, ask(&mut machine, 1 << 18)).expect("memory");
    assert!(buf.is_lgalloc());
    assert_eq!(buf.capacity(), 1 << 18);
    buf.push(5);
    let (raw, len) = buf.into_raw_parts();
    assert_eq!(len, 1);
    let (storage, _, handle) = raw.into_raw_parts();
    assert_eq!(storage, vec![5]);
    machine.release(handle.expect("a handle"));
    assert_eq!(hugalloc::stats(&machine.global).size_class[0].1.thread_regions, 1);
}
