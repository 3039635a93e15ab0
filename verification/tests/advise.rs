//! Residency advisories on handles.
use hugalloc::{
    allocate, allocate_mapped, builder, AdviseError, Advice, AllocError, Allocation, GlobalStealer, Handle, Hint,
    Os, Settings, Step, ThreadLocalStealer,
};
use std::time::Duration;

/// The allocator with one thread, on a system that maps areas at made-up addresses.
struct Machine {
    global: GlobalStealer,
    thread: ThreadLocalStealer,
    settings: Settings,
    next_addr: usize,
    cleared: Vec<Hint>,
}

impl Machine {
    fn new() -> Self {
        let mut global = GlobalStealer::new();
        let thread = ThreadLocalStealer::new(&mut global, 1);
        Machine {
            global,
            thread,
            settings: Settings::default(),
            next_addr: 1 << 40,
            cleared: Vec::new(),
        }
    }

    fn map(&mut self, len: usize) -> usize {
        let addr = self.next_addr;
        self.next_addr += len;
        addr
    }

    fn clear(&mut self, handle: Handle) {
        self.cleared.push(handle.fast_clear());
        self.global.return_cleared(handle);
    }

    fn allocate<T>(&mut self, capacity: usize) -> Result<Allocation, AllocError> {
        let step = loop {
            match allocate::<T>(&self.thread, &mut self.global, self.settings, capacity) {
                Step::Again => {}
                step => break step,
            }
        };
        let step = match step {
            Step::NeedArea(request) => {
                let addr = self.map(request.len);
                allocate_mapped::<T>(
                    &self.thread,
                    &mut self.global,
                    self.settings,
                    request,
                    Ok(addr),
                )
            }
            step => step,
        };
        match step {
            Step::Done(result) => result,
            Step::Clear(handle, result) => {
                self.clear(handle);
                result
            }
            Step::NeedArea(_) | Step::Again => panic!("an area was handed in"),
        }
    }

    fn release(&mut self, handle: Handle) {
        let to_clear = self.thread.release(&mut self.global, self.settings, handle);
        if let Some(handle) = to_clear {
            self.clear(handle);
        }
    }
}

fn initialize(machine: &mut Machine) {
    builder()
        .enable()
        .background_interval(Duration::from_secs(1).as_nanos())
        .background_clear_bytes(4 << 20)
        .growth_dampener(1)
        .apply(&mut machine.settings)
        .expect("a background update");
}

#[test]
fn handle_cold_ok() -> Result<(), AllocError> {
    let mut machine = Machine::new();
    initialize(&mut machine);
    let (_, cap, handle) = machine.allocate::<u8>(2 << 20)?;
    handle.cold(0..cap).unwrap();
    handle.cold(0..0).unwrap();
    assert!(matches!(
        handle.cold(0..cap + 1),
        Err(AdviseError::OutOfBounds { .. })
    ));
    Ok(())
}

#[test]
fn handle_pageout_ok() -> Result<(), AllocError> {
    let mut machine = Machine::new();
    initialize(&mut machine);
    let (_, cap, handle) = machine.allocate::<u8>(2 << 20)?;
    handle.pageout(0..cap).unwrap();
    handle.pageout(0..0).unwrap();
    assert!(matches!(
        handle.pageout(0..cap + 1),
        Err(AdviseError::OutOfBounds { .. })
    ));
    Ok(())
}

#[test]
fn handle_advise_zero_length_noop() -> Result<(), AllocError> {
    let mut machine = Machine::new();
    initialize(&mut machine);
    let (_, _cap, handle) = machine.allocate::<u8>(2 << 20)?;
    assert!(handle.prefetch(0..0).unwrap().is_none());
    assert!(handle.cold(0..0).unwrap().is_none());
    assert!(handle.pageout(0..0).unwrap().is_none());
    assert!(handle.restore_thp(0..0).unwrap().is_empty());
    Ok(())
}

#[test]
fn handle_restore_thp_after_pageout() -> Result<(), AllocError> {
    let mut machine = Machine::new();
    initialize(&mut machine);
    let (ptr, cap, handle) = machine.allocate::<u8>(2 << 20)?;
    handle.pageout(0..cap).unwrap();
    let hints = handle.restore_thp(0..cap).unwrap();
    // The range is still the one that was allocated, and is paged in page by page.
    for i in (0..cap).step_by(4096) {
        assert!(hints.iter().all(|h| h.addr <= ptr + i && ptr + i < h.addr + h.len));
    }
    let advices: Vec<Advice> = hints.iter().map(|h| h.advice).collect();
    assert_eq!(advices, [Advice::WillNeed, Advice::PopulateRead, Advice::Collapse]);
    assert!(matches!(
        handle.restore_thp(0..cap + 1),
        Err(AdviseError::OutOfBounds { .. })
    ));
    Ok(())
}

#[test]
fn hints_name_address_length_and_advice() {
    let handle = Handle::from_raw_parts(0x40_0000, 0x20_0000);
    let hint = |advice| Some(Hint { addr: 0x40_1000, len: 0x1000, advice });
    assert_eq!(handle.prefetch(0x1000..0x2000).unwrap(), hint(Advice::WillNeed));
    assert_eq!(handle.cold(0x1000..0x2000).unwrap(), hint(Advice::Cold));
    assert_eq!(handle.pageout(0x1000..0x2000).unwrap(), hint(Advice::PageOut));
    let whole = |advice| Hint { addr: 0x40_0000, len: 0x20_0000, advice };
    assert_eq!(handle.clear(Os::Linux), whole(Advice::Free));
    assert_eq!(handle.clear(Os::Other), whole(Advice::DontNeed));
    assert_eq!(handle.fast_clear(), whole(Advice::DontNeed));
}

#[test]
fn refusal_names_the_range() {
    let handle = Handle::from_raw_parts(0x40_0000, 0x20_0000);
    match handle.prefetch(0x10_0000..0x20_0001) {
        Err(AdviseError::OutOfBounds { byte_offset, byte_len, allocation_len }) => {
            assert_eq!(byte_offset, 0x10_0000);
            assert_eq!(byte_len, 0x10_0001);
            assert_eq!(allocation_len, 0x20_0000);
        }
        other => panic!("not refused: {other:?}"),
    }
    // The end of the address space is no way around the bounds.
    assert!(handle.prefetch(1..usize::MAX).is_err());
    assert!(handle.prefetch(usize::MAX - 1..usize::MAX).is_err());
    // A range that ends before it starts is empty.
    #[allow(clippy::reversed_empty_ranges)]
    let reversed = handle.prefetch(0x1000..0);
    assert_eq!(reversed.unwrap(), None);
    // No memory, nothing to advise.
    assert_eq!(Handle::dangling().cold(0..10).unwrap(), None);
}

#[test]
fn advices_by_system() {
    for advice in [
        Advice::WillNeed,
        Advice::Cold,
        Advice::PageOut,
        Advice::PopulateRead,
        Advice::Collapse,
        Advice::Free,
        Advice::DontNeed,
    ] {
        assert!(advice.issued_on(Os::Linux));
    }
    assert!(Advice::WillNeed.issued_on(Os::Other));
    assert!(Advice::DontNeed.issued_on(Os::Other));
    assert!(!Advice::Cold.issued_on(Os::Other));
    assert!(!Advice::PageOut.issued_on(Os::Other));
    assert!(!Advice::Collapse.issued_on(Os::Other));
}

#[test]
fn huge_page_warning_comes_once() {
    assert!(hugalloc::advise::warn_about_huge_pages(-1, false));
    assert!(!hugalloc::advise::warn_about_huge_pages(-1, true));
    assert!(!hugalloc::advise::warn_about_huge_pages(0, false));
}
