//! Configuration, and the background worker that it drives.
use hugalloc::background::{sweep_limit, sweep_step, Action, BackgroundControl, Event, SweepStep};
use hugalloc::class_state::Sweep;
use hugalloc::config::{sanitize_decay, BackgroundConfigUpdate, BackgroundWorkerConfig, FOREVER};
use hugalloc::queue::{Steal, RETRY_LIMIT};
use hugalloc::{
    allocate, allocate_mapped, builder, stats, AllocError, Allocation, BackgroundWorker, Builder, ConfigError,
    GlobalStealer, Handle, Hint, Os, Settings, SizeClass, Step, ThreadLocalStealer,
};
use std::time::Duration;

/// The allocator with one thread, on a system that maps areas at made-up addresses.
struct Machine {
    global: GlobalStealer,
    thread: ThreadLocalStealer,
    settings: Settings,
    next_addr: usize,
    cleared: Vec<Hint>,
}

impl Machine {
    fn new() -> Self {
        let mut global = GlobalStealer::new();
        let thread = ThreadLocalStealer::new(&mut global, 1);
        Machine {
            global,
            thread,
            settings: Settings::default(),
            next_addr: 1 << 40,
            cleared: Vec::new(),
        }
    }

    fn map(&mut self, len: usize) -> usize {
        let addr = self.next_addr;
        self.next_addr += len;
        addr
    }

    fn clear(&mut self, handle: Handle) {
        self.cleared.push(handle.fast_clear());
        self.global.return_cleared(handle);
    }

    fn allocate<T>(&mut self, capacity: usize) -> Result<Allocation, AllocError> {
        let step = loop {
            match allocate::<T>(&self.thread, &mut self.global, self.settings, capacity) {
                Step::Again => {}
                step => break step,
            }
        };
        let step = match step {
            Step::NeedArea(request) => {
                let addr = self.map(request.len);
                allocate_mapped::<T>(
                    &self.thread,
                    &mut self.global,
                    self.settings,
                    request,
                    Ok(addr),
                )
            }
            step => step,
        };
        match step {
            Step::Done(result) => result,
            Step::Clear(handle, result) => {
                self.clear(handle);
                result
            }
            Step::NeedArea(_) | Step::Again => panic!("an area was handed in"),
        }
    }

    fn release(&mut self, handle: Handle) {
        let to_clear = self.thread.release(&mut self.global, self.settings, handle);
        if let Some(handle) = to_clear {
            self.clear(handle);
        }
    }
}

impl Machine {
    fn backlog(&self) -> usize {
        stats(&self.global).size_class.iter().map(|(_, s)| s.global_regions).sum()
    }

    /// Allocate some regions, then release them all.
    fn seed(&mut self, n: usize) {
        let handles: Vec<Handle> = (0..n).map(|_| self.allocate::<u8>(2 << 20).expect("alloc").2).collect();
        for handle in handles {
            self.release(handle);
        }
    }

    fn clear_slow_total(&self) -> u64 {
        stats(&self.global).size_class.iter().map(|(_, s)| s.clear_slow_total).sum()
    }

    fn maintain(&mut self, config: BackgroundWorkerConfig) {
        for index in 0..17 {
            let size_class = SizeClass::from_index(index);
            let backlog = self.global.backlog(size_class);
            let want = (backlog as f32 * f32::from_bits(config.decay)) as usize;
            let mut next = Some(self.global.begin_sweep(size_class, config.clear_bytes, want));
            while let Some(sweep) = next {
                for handle in &sweep.regions {
                    self.cleared.push(handle.clear(Os::Linux));
                }
                let rest = sweep.rest();
                self.global.finish_sweep(size_class, sweep.regions);
                next = rest.map(|left| self.global.resume_sweep(size_class, left));
            }
        }
    }
}

/// A background worker on a clock of its own.
struct Runner {
    worker: BackgroundWorker,
    now: u128,
}

impl Runner {
    fn new() -> Self {
        Runner { worker: BackgroundWorker::new(), now: 0 }
    }

    fn apply(&mut self, machine: &mut Machine, builder: Builder) {
        if let Some(update) = builder.apply(&mut machine.settings) {
            assert_eq!(self.worker.receive(Event::Update(update)), Action::Wait);
            self.worker.schedule(self.now);
        }
    }

    /// Sleep for some time while the worker runs; returns how often it ticked.
    fn sleep(&mut self, machine: &mut Machine, duration: Duration) -> usize {
        let end = self.now + duration.as_nanos();
        let mut ticks = 0;
        loop {
            let timeout = self.worker.timeout(self.now);
            if self.now + timeout > end {
                self.now = end;
                return ticks;
            }
            self.now += timeout;
            assert_eq!(self.worker.receive(Event::Timeout), Action::Maintain);
            machine.maintain(self.worker.config);
            self.worker.schedule(self.now);
            ticks += 1;
        }
    }
}

fn reset_to_defaults(machine: &mut Machine, worker: &mut Runner) {
    worker.apply(
        machine,
        builder()
            .enable()
            .eager_return(false)
            .growth_dampener(1)
            .local_buffer_bytes(32 << 20)
            .background_interval(Duration::from_secs(1).as_nanos())
            .background_clear_bytes(4 << 20),
    );
}

#[test]
fn builder_chain_is_expression() {
    let mut settings = Settings::default();
    let update = builder()
        .enable()
        .eager_return(true)
        .growth_dampener(4)
        .local_buffer_bytes(64 << 20)
        .background_interval(Duration::from_secs(1).as_nanos())
        .background_clear_bytes(1 << 20)
        .apply(&mut settings);
    assert_eq!(
        settings,
        Settings { enabled: true, eager_return: true, growth_dampener: 4, local_buffer_bytes: 64 << 20 }
    );
    assert_eq!(
        update,
        Some(BackgroundConfigUpdate {
            interval: Some(1_000_000_000),
            clear_bytes: Some(1 << 20),
            decay: None,
        })
    );
}

#[test]
fn builder_partial_update_preserves_others() {
    let mut machine = Machine::new();
    let mut worker = Runner::new();
    reset_to_defaults(&mut machine, &mut worker);
    let before = machine.settings;
    assert_eq!(builder().growth_dampener(7).apply(&mut machine.settings), None);
    assert_eq!(machine.settings, Settings { growth_dampener: 7, ..before });
    let _ = machine.allocate::<u8>(2 << 20).expect("allocate");
}

#[test]
fn background_decay_drains_backlog() {
    let mut machine = Machine::new();
    let mut worker = Runner::new();
    reset_to_defaults(&mut machine, &mut worker);
    // Configure short ticks, small floor, full decay.
    worker.apply(
        &mut machine,
        builder()
            .enable()
            .local_buffer_bytes(1 << 21) // force overflow into global injector
            .background_interval(Duration::from_millis(50).as_nanos())
            .background_clear_bytes(1 << 21) // 1 region at min size class
            .background_decay(0.5f32.to_bits()),
    );

    // Seed backlog: allocate and immediately drop N handles.
    const N: usize = 64;
    for _ in 0..N {
        let (_, _, h) = machine.allocate::<u8>(2 << 20).expect("alloc");
        machine.release(h);
    }

    // With decay=0.5 and floor=1, backlog drains in ~log2(N) ticks.
    let max_ticks = (N as f64).log2().ceil() as u64 + 4;
    worker.sleep(&mut machine, Duration::from_millis(50 * max_ticks));

    let backlog = machine.backlog();
    assert!(
        backlog <= 2,
        "backlog still {backlog} after {max_ticks} ticks; decay not draining"
    );
}

#[test]
fn background_floor_matches_flat() {
    let mut machine = Machine::new();
    let mut worker = Runner::new();
    const FLOOR_BYTES: usize = 1 << 21; // 2 MiB floor = 1 region per tick
    const TICK_MS: u64 = 50;
    worker.apply(
        &mut machine,
        builder()
            .enable()
            .local_buffer_bytes(1 << 21) // force overflow into global injector
            .background_interval(Duration::from_millis(TICK_MS).as_nanos())
            .background_clear_bytes(FLOOR_BYTES)
            .background_decay(0.0f32.to_bits()),
    );

    const N: usize = 64;
    for _ in 0..N {
        let (_, _, h) = machine.allocate::<u8>(2 << 20).expect("alloc");
        machine.release(h);
    }

    let slow0 = machine.clear_slow_total();
    const TICKS: u64 = 4;
    worker.sleep(&mut machine, Duration::from_millis(TICK_MS * TICKS + TICK_MS / 2));
    let drained = machine.clear_slow_total() - slow0;

    // With decay=0, each tick drains exactly floor=1 region per size class.
    let max_expected = TICKS * 2;
    assert!(
        drained <= max_expected,
        "decay=0 with floor=1 drained {drained} regions in {TICKS} ticks; expected <= {max_expected}"
    );
}

#[test]
fn background_decay_drains_a_full_backlog() {
    let mut machine = Machine::new();
    let mut worker = Runner::new();
    worker.apply(
        &mut machine,
        builder()
            .enable()
            .local_buffer_bytes(1 << 21)
            .background_interval(Duration::from_millis(50).as_nanos())
            .background_clear_bytes(1 << 21)
            .background_decay(0.5f32.to_bits()),
    );
    const N: usize = 64;
    machine.seed(N);
    assert_eq!(machine.backlog(), N - 1);
    let max_ticks = (N as f64).log2().ceil() as u64 + 4;
    worker.sleep(&mut machine, Duration::from_millis(50 * max_ticks));
    assert_eq!(machine.backlog(), 0);
    assert_eq!(machine.clear_slow_total(), 63);
}

#[test]
fn background_floor_takes_one_of_a_full_backlog() {
    let mut machine = Machine::new();
    let mut worker = Runner::new();
    worker.apply(
        &mut machine,
        builder()
            .enable()
            .local_buffer_bytes(1 << 21)
            .background_interval(Duration::from_millis(50).as_nanos())
            .background_clear_bytes(1 << 21)
            .background_decay(0.0f32.to_bits()),
    );
    machine.seed(64);
    worker.sleep(&mut machine, Duration::from_millis(50 * 4 + 25));
    assert_eq!(machine.clear_slow_total(), 4);
    assert_eq!(machine.backlog(), 59);
}

#[test]
fn builder_full_apply() {
    let mut machine = Machine::new();
    // Verify each knob's effect is observable, not just that the chain compiles.
    builder().disable().apply(&mut machine.settings);
    assert!(matches!(machine.allocate::<u8>(2 << 20), Err(AllocError::Disabled)));

    builder().enable().apply(&mut machine.settings);
    let (_, _, h) = machine.allocate::<u8>(2 << 20).expect("enable takes effect");
    machine.release(h);
}

#[test]
fn background_respawn_preserves_prior_config() {
    let mut machine = Machine::new();
    let mut worker = Runner::new();

    // Establish a non-default background config.
    worker.apply(
        &mut machine,
        builder()
            .enable()
            .background_interval(Duration::from_millis(50).as_nanos())
            .background_clear_bytes(1 << 21)
            .background_decay(0.5f32.to_bits()),
    );

    // The partial update must preserve interval and clear_bytes so the worker keeps ticking.
    worker.apply(&mut machine, builder().background_decay(0.7f32.to_bits()));
    assert_eq!(worker.worker.config.interval, Duration::from_millis(50).as_nanos());
    assert_eq!(worker.worker.config.clear_bytes, 1 << 21);
    assert_eq!(worker.worker.config.decay, 0.7f32.to_bits());

    for _ in 0..8 {
        let (_, _, h) = machine.allocate::<u8>(2 << 20).expect("alloc");
        machine.release(h);
    }
    let ticks = worker.sleep(&mut machine, Duration::from_millis(500));
    assert_eq!(ticks, 10);

    let backlog = machine.backlog();
    assert!(
        backlog <= 2,
        "backlog still {backlog} after decay-only reconfigure; last_config not preserved"
    );
}

#[test]
fn decay_is_clamped() {
    let used = |d: f32| f32::from_bits(sanitize_decay(d.to_bits()));
    assert_eq!(used(0.0), 0.0);
    assert_eq!(used(0.25), 0.25);
    assert_eq!(used(0.5), 0.5);
    assert_eq!(used(1.0), 1.0);
    assert_eq!(used(1.5), 1.0);
    assert_eq!(used(f32::INFINITY), 1.0);
    assert_eq!(used(-0.1), 0.0);
    assert_eq!(used(f32::NEG_INFINITY), 0.0);
    assert_eq!(used(-0.0), 0.0);
    assert_eq!(used(f32::NAN), 0.5);
    assert_eq!(used(-f32::NAN), 0.5);
    assert_eq!(used(f32::MIN_POSITIVE), f32::MIN_POSITIVE);
    for d in [-3.0f32, -0.0, 0.0, 0.3, 1.0, 7.0] {
        assert_eq!(used(d), d.clamp(0.0, 1.0));
        assert_eq!(used(used(d)), used(d));
    }
    let mut settings = Settings::default();
    let update = builder().background_decay(2.0f32.to_bits()).apply(&mut settings).expect("an update");
    assert_eq!(update.decay, Some(1.0f32.to_bits()));
    assert_eq!(settings, Settings::default());
}

#[test]
fn an_empty_builder_changes_nothing() {
    let mut settings =
        Settings { enabled: true, eager_return: true, growth_dampener: 3, local_buffer_bytes: 5 };
    let before = settings;
    assert_eq!(builder().apply(&mut settings), None);
    assert_eq!(settings, before);
}

#[test]
fn worker_waits_without_end_until_configured() {
    let mut worker = BackgroundWorker::new();
    assert_eq!(worker.config.interval, Duration::MAX.as_nanos());
    assert_eq!(worker.config.decay, 0.5f32.to_bits());
    assert_eq!(worker.config.clear_bytes, 0);
    assert_eq!(worker.timeout(17), FOREVER);
    let update = BackgroundConfigUpdate { interval: Some(100), clear_bytes: None, decay: None };
    assert_eq!(worker.receive(Event::Update(update)), Action::Wait);
    worker.schedule(1000);
    assert_eq!(worker.timeout(1000), 100);
    assert_eq!(worker.timeout(1070), 30);
    assert_eq!(worker.timeout(2000), 0);
    assert_eq!(worker.receive(Event::Timeout), Action::Maintain);
    worker.schedule(2000);
    // The schedule goes by the last cleanup, not by the clock.
    assert_eq!(worker.next_cleanup, Some(1200));
    assert_eq!(worker.receive(Event::Disconnected), Action::Stop);
    // A time that the clock cannot tell is never.
    let update = BackgroundConfigUpdate { interval: Some(u128::MAX), clear_bytes: None, decay: None };
    worker.receive(Event::Update(update));
    worker.schedule(1);
    assert_eq!(worker.next_cleanup, None);
}

#[test]
fn sweep_limits() {
    const REGION: usize = 2 << 20;
    // The floor rounds up; what is wanted beyond it counts.
    assert_eq!(sweep_limit(REGION, REGION, 0), 1);
    assert_eq!(sweep_limit(REGION + 1, REGION, 0), 2);
    assert_eq!(sweep_limit(4 << 20, REGION, 5), 5);
    assert_eq!(sweep_limit(4 << 20, REGION, 1000), 1000);
    assert_eq!(sweep_limit(0, REGION, 0), 0);
    assert_eq!(sweep_limit(0, REGION, 1000), 1000);
    assert_eq!(sweep_limit(usize::MAX, 1, 3), usize::MAX);
}

#[test]
fn a_tick_goes_on_with_the_rest() {
    let sweep = |complete, left| Sweep { regions: Vec::new(), complete, left };
    assert_eq!(sweep(false, 3).rest(), Some(3));
    assert_eq!(sweep(true, 3).rest(), None);
    assert_eq!(sweep(true, 0).rest(), None);

    let mut machine = Machine::new();
    builder().enable().local_buffer_bytes(0).apply(&mut machine.settings);
    machine.seed(8);
    let smallest = SizeClass::from_index(0);
    let mut taken = 0;
    let mut left = 5;
    let last = loop {
        let sweep = machine.global.resume_sweep(smallest, left);
        assert_eq!(sweep.left, left - sweep.regions.len());
        taken += sweep.regions.len();
        match sweep.rest() {
            Some(rest) => left = rest,
            None => break sweep,
        }
    };
    assert_eq!(taken, 5);
    assert_eq!(last.left, 0);
    assert_eq!(machine.backlog(), 3);
}

#[test]
fn sweep_steps() {
    assert_eq!(SweepStep::begin(0), SweepStep::Done);
    assert_eq!(SweepStep::begin(5), SweepStep::Continue { left: 5, attempt: 0 });
    assert_eq!(sweep_step(5, 3, Steal::Success(2)), SweepStep::Continue { left: 3, attempt: 0 });
    assert_eq!(sweep_step(5, 3, Steal::Success(5)), SweepStep::Done);
    assert_eq!(sweep_step(5, 3, Steal::Empty), SweepStep::Done);
    assert_eq!(sweep_step(5, 3, Steal::Retry), SweepStep::Continue { left: 5, attempt: 4 });
    assert_eq!(sweep_step(5, RETRY_LIMIT - 1, Steal::Retry), SweepStep::GaveUp);
}

#[test]
fn updates_reach_the_running_worker_or_a_new_one() {
    let update = BackgroundConfigUpdate { interval: Some(1), clear_bytes: None, decay: None };
    let mut control = BackgroundControl::new();
    let full = BackgroundConfigUpdate {
        interval: Some(1),
        clear_bytes: Some(0),
        decay: Some(0.5f32.to_bits()),
    };
    assert_eq!(control.undelivered(None, update), Some(full));
    assert_eq!(control.undelivered(Some(Ok(())), update), None);
    assert_eq!(control.undelivered(Some(Err(update)), update), Some(full));
    let error = std::io::Error::from(std::io::ErrorKind::OutOfMemory);
    assert!(matches!(
        control.settle(update, Err(error)),
        Err(ConfigError::BackgroundWorkerFailed(e)) if e.kind() == std::io::ErrorKind::OutOfMemory
    ));
    assert_eq!(control, BackgroundControl::new());
    assert!(control.settle(update, Ok(())).is_ok());
    assert_eq!(control.last.interval, 1);
}

#[test]
fn a_new_worker_keeps_what_the_last_one_was_told() {
    let mut settings = Settings::default();
    let mut control = BackgroundControl::new();
    let first = builder()
        .background_interval(Duration::from_millis(50).as_nanos())
        .background_clear_bytes(1 << 21)
        .background_decay(0.5f32.to_bits())
        .apply(&mut settings)
        .expect("an update");
    assert!(control.undelivered(None, first).is_some());
    control.settle(first, Ok(())).expect("started");
    // The worker has died since; only the decay is set.
    let second = builder().background_decay(0.7f32.to_bits()).apply(&mut settings).expect("an update");
    let leftover = control.undelivered(Some(Err(second)), second).expect("a new worker");
    control.settle(second, Ok(())).expect("started");
    let mut worker = BackgroundWorker::new();
    assert_eq!(worker.receive(Event::Update(leftover)), Action::Wait);
    assert_eq!(worker.config.interval, Duration::from_millis(50).as_nanos());
    assert_eq!(worker.config.clear_bytes, 1 << 21);
    assert_eq!(worker.config.decay, 0.7f32.to_bits());
    assert_eq!(control.last, worker.config);
}

#[test]
fn one_tick_halves_a_large_backlog() {
    let mut machine = Machine::new();
    builder().enable().local_buffer_bytes(0).apply(&mut machine.settings);
    let handles: Vec<Handle> = (0..1024).map(|_| machine.allocate::<u8>(2 << 20).expect("alloc").2).collect();
    for h in handles {
        machine.release(h);
    }
    let config = BackgroundWorkerConfig {
        interval: 1,
        clear_bytes: 1 << 21,
        decay: 0.5f32.to_bits(),
    };
    assert_eq!(machine.backlog(), 1024);
    for left in [512, 256, 128, 64, 32, 16, 8, 4, 2, 1, 0] {
        machine.maintain(config);
        assert_eq!(machine.backlog(), left);
    }
}
