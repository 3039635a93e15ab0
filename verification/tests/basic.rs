//! Allocation, release and statistics.
use hugalloc::{
    allocate, allocate_mapped, builder, AllocError, Allocation, Buffer, GlobalStealer, Handle, Hint, Settings,
    Step, ThreadLocalStealer,
};
use std::time::Duration;

/// The allocator with one thread, on a system that maps areas at made-up addresses.
struct Machine {
    global: GlobalStealer,
    thread: ThreadLocalStealer,
    settings: Settings,
    next_addr: usize,
    cleared: Vec<Hint>,
}

impl Machine {
    fn new() -> Self {
        let mut global = GlobalStealer::new();
        let thread = ThreadLocalStealer::new(&mut global, 1);
        Machine {
            global,
            thread,
            settings: Settings::default(),
            next_addr: 1 << 40,
            cleared: Vec::new(),
        }
    }

    fn map(&mut self, len: usize) -> usize {
        let addr = self.next_addr;
        self.next_addr += len;
        addr
    }

    fn clear(&mut self, handle: Handle) {
        self.cleared.push(handle.fast_clear());
        self.global.return_cleared(handle);
    }

    fn allocate<T>(&mut self, capacity: usize) -> Result<Allocation, AllocError> {
        let step = loop {
            match allocate::<T>(&self.thread, &mut self.global, self.settings, capacity) {
                Step::Again => {}
                step => break step,
            }
        };
        let step = match step {
            Step::NeedArea(request) => {
                let addr = self.map(request.len);
                allocate_mapped::<T>(
                    &self.thread,
                    &mut self.global,
                    self.settings,
                    request,
                    Ok(addr),
                )
            }
            step => step,
        };
        match step {
            Step::Done(result) => result,
            Step::Clear(handle, result) => {
                self.clear(handle);
                result
            }
            Step::NeedArea(_) | Step::Again => panic!("an area was handed in"),
        }
    }

    fn release(&mut self, handle: Handle) {
        let to_clear = self.thread.release(&mut self.global, self.settings, handle);
        if let Some(handle) = to_clear {
            self.clear(handle);
        }
    }
}

fn initialize(machine: &mut Machine) {
    builder()
        .enable()
        .background_interval(Duration::from_secs(1).as_nanos())
        .background_clear_bytes(4 << 20)
        .growth_dampener(1)
        .apply(&mut machine.settings)
        .expect("a background update");
}

/// Memory for the elements of an allocation.
fn buffer<T>(allocation: Allocation) -> Buffer<T> {
    let (_, cap, handle) = allocation;
    Buffer::try_lgalloc(cap, Ok((Vec::with_capacity(cap), cap, handle))).expect("parts of an allocation")
}

#[test]
fn test_readme() -> Result<(), AllocError> {
    let mut machine = Machine::new();
    initialize(&mut machine);

    // Allocate memory
    let allocation = machine.allocate::<u8>(2 << 20)?;
    let mut vec: Buffer<u8> = buffer(allocation);

    // Write into region.
    vec.extend_from_slice(&[1, 2, 3, 4]);

    // We can read from the vector.
    assert_eq!(&*vec, &[1, 2, 3, 4]);

    // Deallocate after use
    let (raw, len) = vec.into_raw_parts();
    assert_eq!(len, 4);
    let (_, _, handle) = raw.into_raw_parts();
    machine.release(handle.expect("backed by the pool"));
    Ok(())
}

#[test]
fn allocate_and_write() -> Result<(), AllocError> {
    let mut machine = Machine::new();
    initialize(&mut machine);
    let allocation = machine.allocate::<u8>(4 << 20)?;
    let cap = allocation.1;
    assert!(cap > 0);
    let mut buf: Buffer<u8> = buffer(allocation);
    buf.push(1);
    assert_eq!(buf[0], 1);
    assert_eq!(cap, 4 << 20);
    Ok(())
}

#[test]
fn cross_thread_dealloc() -> Result<(), AllocError> {
    let mut machine = Machine::new();
    builder().enable().apply(&mut machine.settings);
    let (_, _, handle) = machine.allocate::<u8>(2 << 20)?;
    let (addr, len) = (handle.addr(), handle.len());

    // Another thread gives the memory back, and ends.
    let other = ThreadLocalStealer::new(&mut machine.global, 2);
    assert!(other.release(&mut machine.global, machine.settings, handle).is_none());
    other.retire(&mut machine.global);

    // The memory is shared now, and comes first.
    let (again, _, handle) = machine.allocate::<u8>(2 << 20)?;
    assert_eq!(again, addr);
    assert_eq!(handle.len(), len);
    Ok(())
}

#[test]
fn zst() -> Result<(), AllocError> {
    let mut machine = Machine::new();
    initialize(&mut machine);
    let (ptr, cap, handle) = machine.allocate::<()>(10)?;
    assert!(cap > 0);
    assert_eq!(ptr, 1);
    assert_eq!(cap, usize::MAX);
    assert!(handle.is_dangling());
    Ok(())
}

#[test]
fn zero_capacity_zst() -> Result<(), AllocError> {
    let mut machine = Machine::new();
    initialize(&mut machine);
    let (_, cap, _) = machine.allocate::<()>(0)?;
    assert!(cap > 0);
    assert_eq!(cap, usize::MAX);
    Ok(())
}

#[test]
fn zero_capacity_nonzst() -> Result<(), AllocError> {
    let mut machine = Machine::new();
    initialize(&mut machine);
    let (_, cap, _) = machine.allocate::<()>(0)?;
    assert!(cap > 0);
    // The same for elements with a size: aligned for them, and without room.
    let (ptr, cap, handle) = machine.allocate::<u64>(0)?;
    assert_eq!(ptr, std::mem::align_of::<u64>());
    assert_eq!(cap, 0);
    assert!(handle.is_dangling());
    Ok(())
}

#[test]
fn stats() -> Result<(), AllocError> {
    let mut machine = Machine::new();
    initialize(&mut machine);
    let (_ptr, _cap, handle) = machine.allocate::<usize>(1 << 18)?;
    machine.release(handle);

    let stats = hugalloc::stats(&machine.global);

    assert!(!stats.size_class.is_empty());
    assert_eq!(stats.size_class.len(), 17);
    let (bytes, class) = stats.size_class[0];
    assert_eq!(bytes, 2 << 20);
    assert_eq!(class.areas, 1);
    assert_eq!(class.area_total_bytes, 32 << 20);
    assert_eq!(class.free_regions, 16);
    assert_eq!(class.clean_regions, 15);
    assert_eq!(class.global_regions, 0);
    assert_eq!(class.thread_regions, 1);
    assert_eq!(class.allocations, 1);
    assert_eq!(class.slow_path, 1);
    assert_eq!(class.refill, 1);
    assert_eq!(class.deallocations, 1);
    assert_eq!(class.clear_eager_total, 0);
    assert_eq!(class.clear_slow_total, 0);
    let (bytes, class) = stats.size_class[16];
    assert_eq!(bytes, 128 << 30);
    assert_eq!(class.areas, 0);
    assert_eq!(class.allocations, 0);
    Ok(())
}

#[test]
fn handle_prefetch_byte_range() -> Result<(), AllocError> {
    let mut machine = Machine::new();
    initialize(&mut machine);

    let (_, cap, handle) = machine.allocate::<u8>(2 << 20)?;

    handle.prefetch(0..cap).unwrap();
    handle.prefetch(0..64 * 1024).unwrap();
    handle.prefetch(4096..8192).unwrap();
    handle.prefetch(0..0).unwrap();

    assert!(handle.prefetch(0..cap + 1).is_err());
    assert!(handle.prefetch(cap..cap + 1).is_err());

    Ok(())
}

#[test]
fn handle_drop_returns_to_pool() {
    let mut machine = Machine::new();
    initialize(&mut machine);

    let before = hugalloc::stats(&machine.global)
        .size_class
        .iter()
        .map(|(_, s)| s.deallocations)
        .sum::<u64>();

    {
        let (_, _, handle) = machine.allocate::<u8>(2 << 20).expect("allocate");
        machine.release(handle);
    }

    let after = hugalloc::stats(&machine.global)
        .size_class
        .iter()
        .map(|(_, s)| s.deallocations)
        .sum::<u64>();

    assert!(
        after > before,
        "expected at least one deallocation after handle dropped (before={before}, after={after})"
    );
    assert_eq!(after, before + 1);
}

#[test]
fn handle_into_raw_parts_roundtrip() {
    let mut machine = Machine::new();
    initialize(&mut machine);

    let (_, cap, handle) = machine.allocate::<u8>(2 << 20).expect("allocate");
    let byte_len = cap;

    let (ptr, len) = handle.into_raw_parts();
    assert_eq!(len, byte_len);

    let rebuilt = Handle::from_raw_parts(ptr, len);
    assert_eq!(rebuilt.addr(), ptr);
    assert_eq!(rebuilt.len(), len);
    machine.release(rebuilt);
    assert_eq!(hugalloc::stats(&machine.global).size_class[0].1.thread_regions, 1);
}
