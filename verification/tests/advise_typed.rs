//! Residency advisories on buffers.
use hugalloc::{
    allocate, allocate_mapped, builder, AdviseError, Advice, AllocError, Allocation, Buffer, GlobalStealer,
    Handle, Hint, RawBuffer, Settings, Step, ThreadLocalStealer,
};
use std::time::Duration;

/// The allocator with one thread, on a system that maps areas at made-up addresses.
struct Machine {
    global: GlobalStealer,
    thread: ThreadLocalStealer,
    settings: Settings,
    next_addr: usize,
    cleared: Vec<Hint>,
}

impl Machine {
    fn new() -> Self {
        let mut global = GlobalStealer::new();
        let thread = ThreadLocalStealer::new(&mut global, 1);
        Machine {
            global,
            thread,
            settings: Settings::default(),
            next_addr: 1 << 40,
            cleared: Vec::new(),
        }
    }

    fn map(&mut self, len: usize) -> usize {
        let addr = self.next_addr;
        self.next_addr += len;
        addr
    }

    fn clear(&mut self, handle: Handle) {
        self.cleared.push(handle.fast_clear());
        self.global.return_cleared(handle);
    }

    fn allocate<T>(&mut self, capacity: usize) -> Result<Allocation, AllocError> {
        let step = loop {
            match allocate::<T>(&self.thread, &mut self.global, self.settings, capacity) {
                Step::Again => {}
                step => break step,
            }
        };
        let step = match step {
            Step::NeedArea(request) => {
                let addr = self.map(request.len);
                allocate_mapped::<T>(
                    &self.thread,
                    &mut self.global,
                    self.settings,
                    request,
                    Ok(addr),
                )
            }
            step => step,
        };
        match step {
            Step::Done(result) => result,
            Step::Clear(handle, result) => {
                self.clear(handle);
                result
            }
            Step::NeedArea(_) | Step::Again => panic!("an area was handed in"),
        }
    }

    fn release(&mut self, handle: Handle) {
        let to_clear = self.thread.release(&mut self.global, self.settings, handle);
        if let Some(handle) = to_clear {
            self.clear(handle);
        }
    }
}

fn initialize(machine: &mut Machine) {
    builder()
        .enable()
        .background_interval(Duration::from_secs(1).as_nanos())
        .background_clear_bytes(4 << 20)
        .apply(&mut machine.settings)
        .expect("a background update");
}

/// What the allocator gives for `n` elements, with memory for them.
fn ask<T>(machine: &mut Machine, n: usize) -> Result<(Vec<T>, usize, Handle), AllocError> {
    let (_, cap, handle) = machine.allocate::<T>(n)?;
    Ok((Vec::with_capacity(cap), cap, handle))
}

#[test]
fn rawbuffer_prefetch_element_range() {
    let mut machine = Machine::new();
    initialize(&mut machine);
    let raw: RawBuffer<u64> = RawBuffer::with_capacity(1024, ask(&mut machine, 1024));
    raw.prefetch(0..raw.capacity()).unwrap();
    raw.prefetch(100..200).unwrap();
    raw.cold(0..512).unwrap();
    raw.pageout(512..1024).unwrap();
    raw.restore_thp(0..raw.capacity()).unwrap();
    assert!(raw.prefetch(0..raw.capacity() + 1).is_err());
    assert!(raw.restore_thp(0..raw.capacity() + 1).is_err());
}

#[test]
fn buffer_prefetch_element_range() {
    let mut machine = Machine::new();
    initialize(&mut machine);
    let mut buf: Buffer<u32> = Buffer::with_capacity(1024, ask(&mut machine, 1024));
    buf.extend_from_slice(&vec![0u32; 1024]);
    buf.prefetch(0..buf.len()).unwrap();
    buf.cold(0..buf.len()).unwrap();
    buf.pageout(0..buf.len()).unwrap();
    buf.restore_thp(0..buf.len()).unwrap();
    assert!(buf.prefetch(0..buf.len() + 1).is_err());
    assert!(buf.restore_thp(0..buf.len() + 1).is_err());
}

#[test]
fn buffer_prefetch_checked_mul_overflow() {
    let buf: Buffer<u64> = Buffer::heap(1024);
    // Element ranges whose byte conversion overflows usize should return OutOfBounds
    // with saturating byte values.
    let huge = usize::MAX / 2;
    let err = buf.prefetch(0..huge).unwrap_err();
    assert!(matches!(err, AdviseError::OutOfBounds { .. }));
    let AdviseError::OutOfBounds { byte_offset, byte_len, allocation_len } = err;
    assert_eq!(byte_offset, 0);
    assert_eq!(byte_len, usize::MAX);
    assert_eq!(allocation_len, 0);
}

#[test]
fn rawbuffer_overflow_saturates() {
    let raw: RawBuffer<u64> = RawBuffer::heap(1024);
    let huge = usize::MAX / 4;
    let AdviseError::OutOfBounds { byte_offset, byte_len, allocation_len } =
        raw.cold(huge..huge + 1).unwrap_err();
    assert_eq!(byte_offset, usize::MAX);
    assert_eq!(byte_len, 0);
    assert_eq!(allocation_len, 8192);
    #[allow(clippy::reversed_empty_ranges)]
    let AdviseError::OutOfBounds { byte_offset, byte_len, .. } = raw.cold(4..2).unwrap_err();
    assert_eq!(byte_offset, 32);
    assert_eq!(byte_len, 0);
}

#[test]
fn rawbuffer_hint_covers_the_elements() {
    let mut machine = Machine::new();
    initialize(&mut machine);
    let raw: RawBuffer<u64> = RawBuffer::with_capacity(1 << 18, ask(&mut machine, 1 << 18));
    assert!(raw.is_lgalloc());
    let whole = raw.prefetch(0..1 << 18).unwrap().expect("a hint");
    assert_eq!(whole.len, 2 << 20);
    let part = raw.pageout(100..200).unwrap().expect("a hint");
    assert_eq!(part, Hint { addr: whole.addr + 800, len: 800, advice: Advice::PageOut });
    assert!(raw.prefetch(0..(1 << 18) + 1).is_err());
}

#[test]
fn buffer_bounds_are_its_length() {
    let mut machine = Machine::new();
    initialize(&mut machine);
    let mut buf: Buffer<u32> = Buffer::with_capacity(1 << 19, ask(&mut machine, 1 << 19));
    buf.extend_from_slice(&[7; 10]);
    let hint = buf.cold(2..10).unwrap().expect("a hint");
    assert_eq!(hint.len, 32);
    let AdviseError::OutOfBounds { byte_offset, byte_len, allocation_len } = buf.cold(2..11).unwrap_err();
    assert_eq!(byte_offset, 8);
    assert_eq!(byte_len, 36);
    assert_eq!(allocation_len, 40);
    assert_eq!(buf.restore_thp(0..10).unwrap().len(), 3);
}

#[test]
fn heap_buffer_issues_nothing() {
    let raw: RawBuffer<u64> = RawBuffer::heap(16);
    assert_eq!(raw.prefetch(0..raw.capacity()).unwrap(), None);
    assert!(raw.restore_thp(0..16).unwrap().is_empty());
    assert!(raw.prefetch(0..raw.capacity() + 1).is_err());
}
