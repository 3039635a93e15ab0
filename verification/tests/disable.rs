//! The allocator while it is disabled.
use hugalloc::{allocate, builder, AllocError, GlobalStealer, Settings, Step, ThreadLocalStealer};

#[test]
fn disabled_allocator_returns_error() {
    let mut settings = Settings::default();
    builder().disable().apply(&mut settings);
    let mut global = GlobalStealer::new();
    let thread = ThreadLocalStealer::new(&mut global, 1);
    assert!(matches!(
        allocate::<u8>(&thread, &mut global, settings, 2 << 20),
        Step::Done(Err(AllocError::Disabled))
    ));
    assert!(AllocError::Disabled.is_disabled());
    assert!(!AllocError::OutOfMemory.is_disabled());
}

#[test]
fn allocator_is_disabled_by_default() {
    let settings = Settings::default();
    assert!(!settings.enabled);
    assert!(!settings.eager_return);
    assert_eq!(settings.growth_dampener, 0);
    assert_eq!(settings.local_buffer_bytes, 32 << 20);
}

#[test]
fn while_disabled_every_request_is_refused() {
    let settings = Settings::default();
    let mut global = GlobalStealer::new();
    let thread = ThreadLocalStealer::new(&mut global, 1);
    let disabled = |step| matches!(step, Step::Done(Err(AllocError::Disabled)));
    for capacity in [0, 2 << 20, 1 << 30] {
        assert!(disabled(allocate::<u8>(&thread, &mut global, settings, capacity)));
        assert!(disabled(allocate::<()>(&thread, &mut global, settings, capacity)));
        assert!(disabled(allocate::<u64>(&thread, &mut global, settings, capacity)));
    }
}

#[test]
fn while_disabled_a_size_without_class_is_told() {
    let settings = Settings::default();
    let mut global = GlobalStealer::new();
    let thread = ThreadLocalStealer::new(&mut global, 1);
    match allocate::<u8>(&thread, &mut global, settings, 1 << 38) {
        Step::Done(Err(AllocError::InvalidSizeClass(class))) => assert_eq!(class, 38),
        _ => panic!("not refused"),
    }
    match allocate::<u64>(&thread, &mut global, settings, usize::MAX) {
        Step::Done(Err(AllocError::InvalidSizeClass(class))) => assert_eq!(class, 64),
        _ => panic!("not refused"),
    }
}

#[test]
fn a_byte_takes_a_page() {
    let settings = Settings { enabled: true, ..Settings::default() };
    let mut global = GlobalStealer::new();
    let thread = ThreadLocalStealer::new(&mut global, 1);
    let pages = page_size::get().trailing_zeros() as usize;
    match allocate::<u8>(&thread, &mut global, settings, 1) {
        Step::Done(Err(AllocError::InvalidSizeClass(class))) => assert_eq!(class, pages),
        _ => panic!("not refused"),
    }
}
