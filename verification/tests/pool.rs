//! The pools: where regions go, what is counted, and what is kept.
use hugalloc::queue::{Answers, Steal};
use hugalloc::size_class::SIZE_CLASS_COUNT;
use hugalloc::{
    allocate, allocate_mapped, allocate_with_page, builder, stats, Advice, AllocError, Allocation, GlobalStealer,
    Handle, Hint, Os, Settings, SizeClass, SizeClassStats, Step, ThreadLocalStealer, VALID_SIZE_CLASS,
};

/// The allocator with one thread, on a system that maps areas at made-up addresses.
struct Machine {
    global: GlobalStealer,
    thread: ThreadLocalStealer,
    settings: Settings,
    next_addr: usize,
    cleared: Vec<Hint>,
}

impl Machine {
    fn new() -> Self {
        let mut global = GlobalStealer::new();
        let thread = ThreadLocalStealer::new(&mut global, 1);
        Machine {
            global,
            thread,
            settings: Settings::default(),
            next_addr: 1 << 40,
            cleared: Vec::new(),
        }
    }

    fn map(&mut self, len: usize) -> usize {
        let addr = self.next_addr;
        self.next_addr += len;
        addr
    }

    fn clear(&mut self, handle: Handle) {
        self.cleared.push(handle.fast_clear());
        self.global.return_cleared(handle);
    }

    fn allocate<T>(&mut self, capacity: usize) -> Result<Allocation, AllocError> {
        let step = loop {
            match allocate::<T>(&self.thread, &mut self.global, self.settings, capacity) {
                Step::Again => {}
                step => break step,
            }
        };
        let step = match step {
            Step::NeedArea(request) => {
                let addr = self.map(request.len);
                allocate_mapped::<T>(
                    &self.thread,
                    &mut self.global,
                    self.settings,
                    request,
                    Ok(addr),
                )
            }
            step => step,
        };
        match step {
            Step::Done(result) => result,
            Step::Clear(handle, result) => {
                self.clear(handle);
                result
            }
            Step::NeedArea(_) | Step::Again => panic!("an area was handed in"),
        }
    }

    fn release(&mut self, handle: Handle) {
        let to_clear = self.thread.release(&mut self.global, self.settings, handle);
        if let Some(handle) = to_clear {
            self.clear(handle);
        }
    }
}

const MIB: usize = 1 << 20;

impl Machine {
    fn enabled() -> Self {
        let mut machine = Machine::new();
        builder().enable().apply(&mut machine.settings);
        machine
    }

    /// Statistics of the smallest class.
    fn smallest(&self) -> SizeClassStats {
        stats(&self.global).size_class[0].1
    }

    fn take(&mut self, n: usize) -> Vec<Handle> {
        (0..n).map(|_| self.allocate::<u8>(2 * MIB).expect("memory").2).collect()
    }
}

#[test]
fn size_classes() {
    assert_eq!(VALID_SIZE_CLASS, 21..38);
    assert_eq!(VALID_SIZE_CLASS.len(), SIZE_CLASS_COUNT);
    let class = |bytes: usize| SizeClass::from_byte_size(bytes).map(|c| c.index());
    assert!(matches!(class(2 * MIB), Ok(0)));
    assert!(matches!(class(MIB + 1), Ok(0)));
    assert!(matches!(class(2 * MIB + 1), Ok(1)));
    assert!(matches!(class(128 << 30), Ok(16)));
    assert!(matches!(class(MIB), Err(AllocError::InvalidSizeClass(20))));
    assert!(matches!(class((128 << 30) + 1), Err(AllocError::InvalidSizeClass(38))));
    assert!(matches!(class(0), Err(AllocError::InvalidSizeClass(0))));
    assert!(matches!(class(1), Err(AllocError::InvalidSizeClass(0))));
    assert!(matches!(class(3), Err(AllocError::InvalidSizeClass(2))));
    assert!(matches!(class(usize::MAX), Err(AllocError::InvalidSizeClass(64))));
    assert!(matches!(class((1 << 63) + 1), Err(AllocError::InvalidSizeClass(64))));
    assert!(matches!(class(1 << 63), Err(AllocError::InvalidSizeClass(63))));
    for index in 0..SIZE_CLASS_COUNT {
        let class = SizeClass::from_index(index);
        assert_eq!(class.index(), index);
        assert_eq!(class.byte_size(), 2 * MIB << index);
        assert_eq!(SizeClass::from_byte_size_unchecked(class.byte_size()).index(), index);
    }
    assert!(SizeClass::try_from(37).is_ok());
    assert!(matches!(SizeClass::try_from(38), Err(AllocError::InvalidSizeClass(38))));
}

#[test]
fn capacity_is_that_of_the_class() {
    let mut machine = Machine::enabled();
    let (_, cap, handle) = machine.allocate::<u64>((1 << 18) + 1).expect("memory");
    assert_eq!(cap, 1 << 19);
    assert_eq!(handle.len(), 4 * MIB);
    let (_, cap, handle) = machine.allocate::<[u8; 3]>(MIB).expect("memory");
    assert_eq!(handle.len(), 4 * MIB);
    assert_eq!(cap, 4 * MIB / 3);
}

#[test]
fn sizes_that_no_class_holds() {
    let mut machine = Machine::enabled();
    let invalid = |r: Result<Allocation, AllocError>| match r {
        Err(AllocError::InvalidSizeClass(class)) => class,
        _ => panic!("not refused"),
    };
    assert_eq!(invalid(machine.allocate::<u8>(MIB)), 20);
    assert_eq!(invalid(machine.allocate::<u8>((128 << 30) + 1)), 38);
    assert_eq!(invalid(machine.allocate::<u64>(usize::MAX)), 64);
    assert_eq!(invalid(machine.allocate::<u64>(usize::MAX / 8 + 1)), 64);
    // Nothing was counted, and nothing mapped.
    assert_eq!(machine.smallest().allocations, 0);
    assert_eq!(machine.next_addr, 1 << 40);
}

#[test]
fn small_requests_take_at_least_a_page() {
    let mut global = GlobalStealer::new();
    let thread = ThreadLocalStealer::new(&mut global, 1);
    let settings = Settings { enabled: true, ..Settings::default() };
    match allocate_with_page::<u8>(&thread, &mut global, settings, 1, 1 << 16) {
        Step::Done(Err(AllocError::InvalidSizeClass(class))) => assert_eq!(class, 16),
        _ => panic!("not refused"),
    }
    // Pages of two mebibytes make a valid class of it.
    match allocate_with_page::<u8>(&thread, &mut global, settings, 1, 2 * MIB) {
        Step::NeedArea(request) => {
            assert_eq!(request.size_class.byte_size(), 2 * MIB);
            assert_eq!(request.len, 32 * MIB);
        }
        _ => panic!("no area asked for"),
    }
}

#[test]
fn areas_double_without_dampener() {
    let mut machine = Machine::enabled();
    let mut total = 0;
    for (areas, len) in [(1, 32 * MIB), (2, 64 * MIB), (3, 128 * MIB), (4, 256 * MIB)] {
        machine.take(len / (2 * MIB));
        total += len;
        assert_eq!(machine.smallest().areas, areas);
        assert_eq!(machine.smallest().area_total_bytes, total);
        assert_eq!(machine.smallest().free_regions, 0);
    }
}

#[test]
fn areas_grow_slower_with_dampener() {
    let mut machine = Machine::enabled();
    builder().growth_dampener(1).apply(&mut machine.settings);
    for len in [32, 64, 96, 144] {
        let before = machine.smallest().area_total_bytes;
        machine.take(1);
        assert_eq!(machine.smallest().area_total_bytes - before, len * MIB);
        machine.take(len / 2 - 1);
    }
    // The largest dampener that there is.
    builder().growth_dampener(usize::MAX).apply(&mut machine.settings);
    let before = machine.smallest().area_total_bytes;
    machine.take(1);
    assert_eq!(machine.smallest().area_total_bytes - before, 176 * MIB);
}

#[test]
fn large_regions_come_one_by_one() {
    let mut machine = Machine::enabled();
    let (_, cap, _) = machine.allocate::<u8>(128 << 30).expect("memory");
    assert_eq!(cap, 128 << 30);
    let largest = stats(&machine.global).size_class[16].1;
    assert_eq!(largest.areas, 1);
    assert_eq!(largest.area_total_bytes, 128 << 30);
    assert_eq!(largest.free_regions, 0);
}

#[test]
fn regions_do_not_overlap() {
    let mut machine = Machine::enabled();
    let mut held: Vec<Handle> = machine.take(40);
    held.push(machine.allocate::<u8>(8 * MIB).expect("memory").2);
    held.push(machine.allocate::<u8>(8 * MIB).expect("memory").2);
    // Some come back and go out again.
    for _ in 0..10 {
        let handle = held.remove(3);
        machine.release(handle);
    }
    held.extend(machine.take(15));
    let mut spans: Vec<(usize, usize)> = held.iter().map(|h| (h.addr(), h.addr() + h.len())).collect();
    spans.sort();
    for pair in spans.windows(2) {
        assert!(pair[0].1 <= pair[1].0);
    }
}

#[test]
fn a_thread_gets_back_what_it_released_last() {
    let mut machine = Machine::enabled();
    let mut held = machine.take(16);
    let last = held.pop().expect("a handle");
    let first = held.remove(0);
    let (first_addr, last_addr) = (first.addr(), last.addr());
    machine.release(first);
    machine.release(last);
    assert_eq!(machine.smallest().thread_regions, 2);
    let again = machine.take(2);
    assert_eq!(again[0].addr(), last_addr);
    assert_eq!(again[1].addr(), first_addr);
}

#[test]
fn a_full_cache_shares() {
    let mut machine = Machine::enabled();
    builder().local_buffer_bytes(4 * MIB).apply(&mut machine.settings);
    let held = machine.take(5);
    let addrs: Vec<usize> = held.iter().map(|h| h.addr()).collect();
    for handle in held {
        machine.release(handle);
    }
    let class = machine.smallest();
    assert_eq!(class.thread_regions, 2);
    assert_eq!(class.global_regions, 3);
    assert_eq!(class.clear_eager_total, 0);
    assert_eq!(class.deallocations, 5);
    // What is shared leaves in the order in which it came, once the cache is empty.
    let again = machine.take(5);
    let order: Vec<usize> = again.iter().map(|h| h.addr()).collect();
    assert_eq!(order, [addrs[1], addrs[0], addrs[2], addrs[3], addrs[4]]);
}

#[test]
fn eager_return_clears_what_is_shared() {
    let mut machine = Machine::enabled();
    builder().local_buffer_bytes(2 * MIB).eager_return(true).apply(&mut machine.settings);
    let held = machine.take(3);
    let spans: Vec<(usize, usize)> = held.iter().map(|h| (h.addr(), h.len())).collect();
    for handle in held {
        machine.release(handle);
    }
    let class = machine.smallest();
    assert_eq!(class.thread_regions, 1);
    assert_eq!(class.global_regions, 2);
    assert_eq!(class.clear_eager_total, 2);
    let hint = |(addr, len)| Hint { addr, len, advice: Advice::DontNeed };
    assert_eq!(machine.cleared, [hint(spans[1]), hint(spans[2])]);
}

#[test]
fn a_cleared_region_is_out_until_it_is_shared() {
    let mut machine = Machine::enabled();
    builder().local_buffer_bytes(0).eager_return(true).apply(&mut machine.settings);
    let handle = machine.take(1).remove(0);
    let free = machine.smallest().free_regions;
    let to_clear = machine.thread.deallocate(&mut machine.global, machine.settings, handle).expect("to clear");
    assert_eq!(machine.smallest().free_regions, free);
    machine.global.return_cleared(to_clear);
    assert_eq!(machine.smallest().free_regions, free + 1);
}

#[test]
fn batches_are_half_a_cache() {
    let mut machine = Machine::enabled();
    builder().local_buffer_bytes(16 * MIB).apply(&mut machine.settings);
    // The first region of an area is handed out, the others are clean.
    machine.take(1);
    assert_eq!(machine.smallest().clean_regions, 15);
    assert_eq!(machine.smallest().thread_regions, 0);
    // The next request moves up to four regions out of the clean ones, of which one is handed out.
    machine.take(1);
    let class = machine.smallest();
    assert!(class.thread_regions <= 3);
    assert_eq!(class.clean_regions + class.thread_regions, 14);
    assert!(class.clean_regions >= 11);
}

#[test]
fn threads_steal_from_each_other() {
    let mut machine = Machine::enabled();
    let held = machine.take(16);
    let oldest = held[0].addr();
    for handle in held {
        machine.release(handle);
    }
    assert_eq!(machine.smallest().thread_regions, 16);
    let other = ThreadLocalStealer::new(&mut machine.global, 2);
    match allocate::<u8>(&other, &mut machine.global, machine.settings, 2 * MIB) {
        Step::Done(Ok((addr, _, _))) => assert_eq!(addr, oldest),
        _ => panic!("nothing stolen"),
    }
    assert_eq!(machine.smallest().areas, 1);
    assert_eq!(machine.smallest().thread_regions, 15);
    assert_eq!(machine.smallest().slow_path, 1);
}

#[test]
fn the_end_of_a_thread_loses_nothing() {
    let mut machine = Machine::enabled();
    let other = ThreadLocalStealer::new(&mut machine.global, 2);
    let mut held = machine.take(16);
    held.truncate(4);
    let addrs: Vec<usize> = held.iter().map(|h| h.addr()).collect();
    for handle in held {
        assert!(other.release(&mut machine.global, machine.settings, handle).is_none());
    }
    let before = machine.smallest();
    assert_eq!(before.thread_regions, 4);
    other.retire(&mut machine.global);
    let after = machine.smallest();
    assert_eq!(after.thread_regions, 0);
    assert_eq!(after.global_regions, 4);
    assert_eq!(after.free_regions, before.free_regions);
    assert_eq!(after.allocations, before.allocations);
    assert_eq!(after.deallocations, 4);
    // What was cached last is shared first.
    let again = machine.take(1);
    assert_eq!(again[0].addr(), addrs[3]);
    // A thread that is not there has nothing to lose.
    let stranger = ThreadLocalStealer::new(&mut machine.global, 3);
    stranger.retire(&mut machine.global);
    assert_eq!(machine.smallest().allocations, after.allocations + 1);
}

#[test]
fn a_second_registration_keeps_the_caches() {
    let mut machine = Machine::enabled();
    let handle = machine.take(1).remove(0);
    machine.release(handle);
    machine.thread = ThreadLocalStealer::new(&mut machine.global, 1);
    assert_eq!(machine.smallest().thread_regions, 1);
    machine.take(1);
    assert_eq!(machine.smallest().thread_regions, 0);
}

#[test]
fn a_failed_mapping_is_reported() {
    let mut machine = Machine::enabled();
    let step = allocate::<u8>(&machine.thread, &mut machine.global, machine.settings, 2 * MIB);
    let Step::NeedArea(request) = step else { panic!("memory from nowhere") };
    assert_eq!(request.len, 32 * MIB);
    let error = std::io::Error::from(std::io::ErrorKind::OutOfMemory);
    let step = allocate_mapped::<u8>(
        &machine.thread,
        &mut machine.global,
        machine.settings,
        request,
        Err(error),
    );
    match step {
        Step::Done(Err(AllocError::Io(e))) => assert_eq!(e.kind(), std::io::ErrorKind::OutOfMemory),
        _ => panic!("not reported"),
    }
    let class = machine.smallest();
    assert_eq!(class.areas, 0);
    assert_eq!(class.free_regions, 0);
    assert_eq!(class.refill, 1);
    // The next attempt asks for the same.
    let step = allocate::<u8>(&machine.thread, &mut machine.global, machine.settings, 2 * MIB);
    assert!(matches!(step, Step::NeedArea(request) if request.len == 32 * MIB));
}

#[test]
fn unaligned_memory_goes_back() {
    let mut machine = Machine::enabled();
    machine.next_addr += 4;
    let result = machine.allocate::<u64>(1 << 18);
    assert!(matches!(result, Err(AllocError::UnalignedMemory)));
    let class = machine.smallest();
    assert_eq!(class.free_regions, 16);
    assert_eq!(class.allocations, 1);
    assert_eq!(class.deallocations, 1);
    // It suits what needs no more than it has.
    assert!(machine.allocate::<u32>(1 << 19).is_ok());
    // Where memory is returned eagerly, it is cleared on its way back.
    builder().local_buffer_bytes(0).eager_return(true).apply(&mut machine.settings);
    let result = machine.allocate::<u64>(1 << 18);
    assert!(matches!(result, Err(AllocError::UnalignedMemory)));
    assert_eq!(machine.cleared.len(), 1);
    assert_eq!(machine.smallest().free_regions, 15);
}

#[test]
fn releasing_nothing_is_nothing() {
    let mut machine = Machine::enabled();
    machine.release(Handle::dangling());
    assert_eq!(machine.smallest().deallocations, 0);
}

#[test]
fn a_sweep_cleans_the_oldest_first() {
    let mut machine = Machine::enabled();
    builder().local_buffer_bytes(0).apply(&mut machine.settings);
    let held = machine.take(10);
    let addrs: Vec<usize> = held.iter().map(|h| h.addr()).collect();
    for handle in held {
        machine.release(handle);
    }
    let class = SizeClass::from_index(0);
    assert_eq!(machine.global.backlog(class), 10);
    let sweep = machine.global.begin_sweep(class, 2 * MIB, 4);
    assert!(sweep.complete);
    let swept: Vec<usize> = sweep.regions.iter().map(|h| h.addr()).collect();
    assert_eq!(swept, addrs[..4]);
    assert_eq!(sweep.regions[0].clear(Os::Linux).advice, Advice::Free);
    // While they are out, nobody gets them.
    let free = machine.smallest().free_regions;
    machine.global.finish_sweep(class, sweep.regions);
    assert_eq!(machine.smallest().free_regions, free + 4);
    assert_eq!(machine.smallest().clean_regions, 6 + 4);
    assert_eq!(machine.smallest().global_regions, 6);
    assert_eq!(machine.smallest().clear_slow_total, 4);
    // More than there is.
    let sweep = machine.global.begin_sweep(class, 2 * MIB, 60);
    assert!(sweep.complete);
    assert_eq!(sweep.regions.len(), 6);
    machine.global.finish_sweep(class, sweep.regions);
    assert_eq!(machine.global.backlog(class), 0);
    assert_eq!(machine.smallest().clear_slow_total, 10);
    // Nothing left, and nothing wanted.
    let sweep = machine.global.begin_sweep(class, 0, 0);
    assert!(sweep.complete && sweep.regions.is_empty());
}

#[test]
fn a_backlog_halves_with_every_tick() {
    let mut machine = Machine::enabled();
    builder().local_buffer_bytes(0).apply(&mut machine.settings);
    for handle in machine.take(64) {
        machine.release(handle);
    }
    let class = SizeClass::from_index(0);
    let mut left = Vec::new();
    for _ in 0..7 {
        let want = machine.global.backlog(class) / 2;
        let sweep = machine.global.begin_sweep(class, 2 * MIB, want);
        machine.global.finish_sweep(class, sweep.regions);
        left.push(machine.global.backlog(class));
    }
    assert_eq!(left, [32, 16, 8, 4, 2, 1, 0]);
}

#[test]
fn all_areas_are_given_up() {
    let mut machine = Machine::enabled();
    machine.allocate::<u8>(4 * MIB).expect("memory");
    machine.take(17);
    let areas = machine.global.into_areas();
    let base = 1 << 40;
    assert_eq!(
        areas,
        [
            (base + 32 * MIB, 32 * MIB),
            (base + 64 * MIB, 64 * MIB),
            (base, 32 * MIB),
        ]
    );
}

#[test]
fn the_first_source_with_a_region_counts() {
    let settle = |global, clean, caches| Answers { global, clean, caches }.settle();
    assert!(matches!(settle(Steal::Success(1), None, None), Steal::Success(1)));
    assert!(matches!(settle(Steal::Empty, Some(Steal::Success(2)), None), Steal::Success(2)));
    assert!(matches!(settle(Steal::Retry, Some(Steal::Success(2)), None), Steal::Success(2)));
    assert!(matches!(
        settle(Steal::Retry, Some(Steal::Empty), Some(Steal::Success(3))),
        Steal::Success(3)
    ));
    assert!(matches!(settle(Steal::Empty, Some(Steal::Retry), Some(Steal::Empty)), Steal::Retry));
    assert!(matches!(settle(Steal::Empty, Some(Steal::Empty), Some(Steal::Empty)), Steal::Empty::<u8>));
}

#[test]
fn shared_comes_before_clean_and_clean_before_other_caches() {
    let mut machine = Machine::enabled();
    builder().local_buffer_bytes(2 * MIB).apply(&mut machine.settings);
    // One region is shared, one in the cache of another thread, and the others are clean.
    let other = ThreadLocalStealer::new(&mut machine.global, 2);
    let mut held = machine.take(3);
    let cached = held.pop().expect("a handle");
    let shared = held.pop().expect("a handle");
    let (cached_addr, shared_addr) = (cached.addr(), shared.addr());
    assert!(other.release(&mut machine.global, machine.settings, cached).is_none());
    assert!(other.release(&mut machine.global, machine.settings, shared).is_none());
    assert_eq!(machine.smallest().global_regions, 1);
    assert_eq!(machine.smallest().thread_regions, 1);
    assert_eq!(machine.take(1)[0].addr(), shared_addr);
    let clean = machine.smallest().clean_regions;
    let taken = machine.take(clean);
    assert!(taken.iter().all(|h| h.addr() != cached_addr));
    assert_eq!(machine.smallest().clean_regions, 0);
    assert_eq!(machine.take(1)[0].addr(), cached_addr);
    assert_eq!(machine.smallest().areas, 1);
    assert_eq!(machine.smallest().slow_path, 1);
}

#[test]
fn statistics_show_what_is_in_use() {
    let mut machine = Machine::enabled();
    let used = |machine: &Machine| -> Vec<usize> {
        let stats = stats(&machine.global);
        stats.size_class.iter().map(|(bytes, s)| s.area_total_bytes / bytes - s.free_regions).collect()
    };
    let before = used(&machine);
    assert!(machine.allocate::<u8>(MIB).is_err());
    assert_eq!(used(&machine), before);
    let _held = machine.take(3);
    let (_, _, large) = machine.allocate::<u8>(8 * MIB).expect("memory");
    let during = used(&machine);
    assert_eq!(during[0], before[0] + 3);
    assert_eq!(during[2], before[2] + 1);
    assert_eq!(during.iter().sum::<usize>(), 4);
    machine.release(large);
    assert_eq!(used(&machine)[2], 0);
}

#[test]
fn counters_tell_fast_from_slow() {
    let mut machine = Machine::enabled();
    machine.take(16);
    let class = machine.smallest();
    assert_eq!(class.allocations, 16);
    assert_eq!(class.slow_path, 1);
    assert_eq!(class.refill, 1);
    machine.take(1);
    let class = machine.smallest();
    assert_eq!(class.allocations, 17);
    assert_eq!(class.slow_path, 2);
    assert_eq!(class.refill, 2);
}
