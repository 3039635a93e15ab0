//! The background worker: when it wakes up, and how much it clears.
use crate::config::{BackgroundConfigUpdate, BackgroundWorkerConfig, FOREVER};
use crate::error::ConfigError;
use crate::queue::{Steal, RETRY_LIMIT};
use vstd::arithmetic::power2::pow2;
use vstd::prelude::*;

verus! {

/// The least number of regions to clear per tick: those that `clear_bytes` bytes need.
pub open spec fn sweep_floor(clear_bytes: nat, byte_size: nat) -> nat {
    (clear_bytes + byte_size - 1) as nat / byte_size
}

/// The number of regions to clear in a tick that wants to clear `want` ones: the larger of that and
/// the floor.
pub open spec fn sweep_budget(clear_bytes: nat, byte_size: nat, want: nat) -> nat {
    let floor = sweep_floor(clear_bytes, byte_size);
    if want > floor {
        want
    } else {
        floor
    }
}

/// How many regions of `byte_size` bytes to clear in a tick: `want` ones, which is the decayed
/// backlog, but not less than `clear_bytes` bytes need.
pub fn sweep_limit(clear_bytes: usize, byte_size: usize, want: usize) -> (limit: usize)
    requires
        byte_size > 0,
    ensures
        limit == sweep_budget(clear_bytes as nat, byte_size as nat, want as nat),
{
    let whole: usize = clear_bytes / byte_size;
    let rest: usize = clear_bytes % byte_size;
    proof {
        lemma_round_up(clear_bytes as int, byte_size as int);
    }
    let floor: usize = if rest > 0 {
        whole + 1
    } else {
        whole
    };
    if want > floor {
        want
    } else {
        floor
    }
}

/// How far a tick has come with a size class.
#[derive(Clone, Copy, Debug, PartialEq, Eq, Structural)]
pub enum SweepStep {
    /// Up to `left` more regions are to be taken. The queue has asked for another attempt `attempt`
    /// times in a row.
    Continue { left: usize, attempt: u64 },
    /// As many regions were taken as the tick may, or as there were.
    Done,
    /// The queue asked for another attempt to the last.
    GaveUp,
}

impl SweepStep {
    /// The regions that may still be taken.
    pub open spec fn left(self) -> nat {
        match self {
            SweepStep::Continue { left, attempt } => left as nat,
            _ => 0,
        }
    }

    /// How often the queue may still ask for another attempt.
    pub open spec fn attempts_left(self) -> int {
        match self {
            SweepStep::Continue { left, attempt } => RETRY_LIMIT - attempt,
            _ => 0,
        }
    }

    /// The begin of a tick that may take `limit` regions.
    pub fn begin(limit: usize) -> (step: Self)
        ensures
            step == (if limit > 0 {
                SweepStep::Continue { left: limit, attempt: 0 }
            } else {
                SweepStep::Done
            }),
    {
        if limit > 0 {
            SweepStep::Continue { left: limit, attempt: 0 }
        } else {
            SweepStep::Done
        }
    }
}

/// How a tick goes on after an attempt to take up to `left` regions, `attempt` requests for another
/// one in a row before it, came to `outcome`: as many regions as it says were taken, the queue was
/// empty, or it asks for another attempt.
pub fn sweep_step(left: usize, attempt: u64, outcome: Steal<usize>) -> (step: SweepStep)
    requires
        attempt < RETRY_LIMIT,
        outcome matches Steal::Success(taken) ==> taken <= left,
    ensures
        step == match outcome {
            Steal::Success(taken) => if taken < left {
                SweepStep::Continue { left: (left - taken) as usize, attempt: 0 }
            } else {
                SweepStep::Done
            },
            Steal::Empty => SweepStep::Done,
            Steal::Retry => if attempt + 1 < RETRY_LIMIT {
                SweepStep::Continue { left, attempt: (attempt + 1) as u64 }
            } else {
                SweepStep::GaveUp
            },
        },
{
    match outcome {
        Steal::Success(taken) => if taken < left {
            SweepStep::Continue { left: left - taken, attempt: 0 }
        } else {
            SweepStep::Done
        },
        Steal::Empty => SweepStep::Done,
        Steal::Retry => if attempt + 1 < RETRY_LIMIT {
            SweepStep::Continue { left, attempt: attempt + 1 }
        } else {
            SweepStep::GaveUp
        },
    }
}

/// Division that rounds up.
proof fn lemma_round_up(n: int, d: int)
    requires
        n >= 0,
        d > 0,
    ensures
        n % d > 0 ==> (n + d - 1) / d == n / d + 1 && n / d + 1 <= n,
        n % d == 0 ==> (n + d - 1) / d == n / d,
{
    vstd::arithmetic::div_mod::lemma_fundamental_div_mod(n, d);
    let q = n / d;
    let r = n % d;
    assert(0 <= r < d) by {
        vstd::arithmetic::div_mod::lemma_mod_bound(n, d);
    }
    assert(q >= 0) by {
        vstd::arithmetic::div_mod::lemma_div_pos_is_pos(n, d);
    }
    if r > 0 {
        assert(n + d - 1 == (q + 1) * d + (r - 1)) by (nonlinear_arith)
            requires
                n == d * q + r,
        ;
        vstd::arithmetic::div_mod::lemma_fundamental_div_mod_converse(n + d - 1, d, q + 1, r - 1);
        assert(q + 1 <= n) by (nonlinear_arith)
            requires
                n == d * q + r,
                r >= 1,
                d > r,
                q >= 0,
        ;
    } else {
        assert(n + d - 1 == q * d + (d - 1)) by (nonlinear_arith)
            requires
                n == d * q + r,
                r == 0,
        ;
        vstd::arithmetic::div_mod::lemma_fundamental_div_mod_converse(n + d - 1, d, q, d - 1);
    }
}

/// What wakes the worker up.
pub enum Event {
    /// A configuration update came in.
    Update(BackgroundConfigUpdate),
    /// The timeout passed without an update.
    Timeout,
    /// No more update can come in.
    Disconnected,
}

/// What the worker does when it was woken up.
#[derive(Clone, Copy, Debug, PartialEq, Eq, Structural)]
pub enum Action {
    /// Wait for the next event, after [`BackgroundWorker::schedule`].
    Wait,
    /// Clear part of the backlog of each size class, then wait for the next event, after
    /// [`BackgroundWorker::schedule`].
    Maintain,
    /// End.
    Stop,
}

/// A background worker that performs periodic tasks. Times are nanoseconds on some clock.
#[derive(Clone, Copy, Debug, PartialEq, Eq, Structural)]
pub struct BackgroundWorker {
    /// The running configuration.
    pub config: BackgroundWorkerConfig,
    /// The time of the next cleanup, if there is one.
    pub next_cleanup: Option<u128>,
}

impl BackgroundWorker {
    /// A worker with the default configuration, which waits for its first update.
    pub fn new() -> (worker: Self)
        ensures
            worker.config == (BackgroundWorkerConfig {
                interval: FOREVER,
                clear_bytes: 0,
                decay: crate::config::HALF_BITS,
            }),
            worker.next_cleanup is None,
    {
        BackgroundWorker { config: BackgroundWorkerConfig::default(), next_cleanup: None }
    }

    /// How long the worker waits for an update, in nanoseconds.
    pub open spec fn waits(self, now: u128) -> int {
        match self.next_cleanup {
            None => FOREVER as int,
            Some(at) => if at > now {
                at - now
            } else {
                0
            },
        }
    }

    /// The worker after it was scheduled.
    pub open spec fn scheduled(self, now: u128) -> BackgroundWorker {
        let from = match self.next_cleanup {
            Some(at) => at,
            None => now,
        };
        BackgroundWorker {
            next_cleanup: if from + self.config.interval <= u128::MAX {
                Some((from + self.config.interval) as u128)
            } else {
                None
            },
            ..self
        }
    }

    /// The worker after an event, and what it does then.
    pub open spec fn received(self, event: Event) -> (BackgroundWorker, Action) {
        match event {
            Event::Update(update) => (
                BackgroundWorker { config: self.config.updated(update), next_cleanup: None },
                Action::Wait,
            ),
            Event::Timeout => (self, Action::Maintain),
            Event::Disconnected => (self, Action::Stop),
        }
    }

    /// How long to wait for an update, in nanoseconds.
    pub fn timeout(&self, now: u128) -> (nanos: u128)
        ensures
            nanos == match self.next_cleanup {
                None => FOREVER as int,
                Some(at) => if at > now {
                    at - now
                } else {
                    0
                },
            },
            nanos == self.waits(now),
    {
        match self.next_cleanup {
            None => FOREVER,
            Some(at) => if at > now {
                at - now
            } else {
                0
            },
        }
    }

    /// React to an event.
    pub fn receive(&mut self, event: Event) -> (action: Action)
        ensures
            match event {
                Event::Update(update) => {
                    &&& *final(self) == (BackgroundWorker {
                        config: old(self).config.updated(update),
                        next_cleanup: None,
                    })
                    &&& action == Action::Wait
                },
                Event::Timeout => *final(self) == *old(self) && action == Action::Maintain,
                Event::Disconnected => *final(self) == *old(self) && action == Action::Stop,
            },
            (*final(self), action) == old(self).received(event),
    {
        match event {
            Event::Update(update) => {
                self.config.overlay(update);
                self.next_cleanup = None;
                Action::Wait
            },
            Event::Timeout => Action::Maintain,
            Event::Disconnected => Action::Stop,
        }
    }

    /// Set the time of the next cleanup: one interval after the last one, or from now where there
    /// is none. There is none if the clock cannot tell that time.
    pub fn schedule(&mut self, now: u128)
        ensures
            final(self).config == old(self).config,
            ({
                let from = match old(self).next_cleanup {
                    Some(at) => at,
                    None => now,
                };
                final(self).next_cleanup == if from + old(self).config.interval <= u128::MAX {
                    Some((from + old(self).config.interval) as u128)
                } else {
                    None
                }
            }),
            *final(self) == old(self).scheduled(now),
    {
        let from: u128 = match self.next_cleanup {
            Some(at) => at,
            None => now,
        };
        self.next_cleanup = from.checked_add(self.config.interval);
    }
}

/// What is remembered of the background worker from outside: the configuration that it runs with.
#[derive(Clone, Copy, Debug, PartialEq, Eq, Structural)]
pub struct BackgroundControl {
    /// The last configuration in full.
    pub last: BackgroundWorkerConfig,
}

impl BackgroundControl {
    /// No worker was configured yet.
    pub fn new() -> (control: Self)
        ensures
            control.last == (BackgroundWorkerConfig {
                interval: FOREVER,
                clear_bytes: 0,
                decay: crate::config::HALF_BITS,
            }),
    {
        BackgroundControl { last: BackgroundWorkerConfig::default() }
    }

    /// The update that no running worker took, in full.
    pub open spec fn missed(
        self,
        sent: Option<Result<(), BackgroundConfigUpdate>>,
        update: BackgroundConfigUpdate,
    ) -> Option<BackgroundConfigUpdate> {
        match sent {
            Some(Ok(_)) => None,
            Some(Err(back)) => Some(self.last.updated(back).full_update()),
            None => Some(self.last.updated(update).full_update()),
        }
    }

    /// The update that a new worker is to be started with, if any: where the running worker did not
    /// take the update, or no worker is running. It sets every knob: those that the update leaves
    /// alone keep their last values. `sent` tells whether a worker is running, and if so what came
    /// back.
    pub fn undelivered(
        &self,
        sent: Option<Result<(), BackgroundConfigUpdate>>,
        update: BackgroundConfigUpdate,
    ) -> (leftover: Option<BackgroundConfigUpdate>)
        ensures
            leftover == match sent {
                Some(Ok(_)) => None,
                Some(Err(back)) => Some(self.last.updated(back).full_update()),
                None => Some(self.last.updated(update).full_update()),
            },
            leftover == self.missed(sent, update),
    {
        let missed: BackgroundConfigUpdate = match sent {
            Some(Ok(_)) => {
                return None;
            },
            Some(Err(back)) => back,
            None => update,
        };
        let mut config: BackgroundWorkerConfig = self.last;
        config.overlay(missed);
        Some(config.as_update())
    }

    /// What comes of an update. `started` is what came of starting a worker, where that had to be
    /// done. The configuration is remembered unless that failed.
    ///
    /// # Errors
    ///
    /// Returns [`ConfigError::BackgroundWorkerFailed`] if the thread cannot be spawned.
    pub fn settle(&mut self, update: BackgroundConfigUpdate, started: Result<(), std::io::Error>) -> (outcome: Result<
        (),
        ConfigError,
    >)
        ensures
            match started {
                Ok(_) => {
                    &&& outcome is Ok
                    &&& final(self).last == old(self).last.updated(update)
                },
                Err(e) => {
                    &&& outcome == Err::<(), ConfigError>(ConfigError::BackgroundWorkerFailed(e))
                    &&& *final(self) == *old(self)
                },
            },
    {
        match started {
            Ok(_) => {
                self.last.overlay(update);
                Ok(())
            },
            Err(e) => Err(ConfigError::BackgroundWorkerFailed(e)),
        }
    }
}

/// A worker that is started anew runs with the knobs that the update sets, and for the others with
/// their last values, whatever it began with. That is what is remembered then, and what a worker
/// that never ended runs with.
pub proof fn law_new_worker_keeps_configuration(
    last: BackgroundWorkerConfig,
    update: BackgroundConfigUpdate,
    fresh: BackgroundWorkerConfig,
)
    ensures
        fresh.updated(last.updated(update).full_update()) == last.updated(update),
        update.interval is None ==> last.updated(update).interval == last.interval,
        update.clear_bytes is None ==> last.updated(update).clear_bytes == last.clear_bytes,
        update.decay is None ==> last.updated(update).decay == last.decay,
{
}

/// A tick clears no less than the floor and no less than it wants to; without a decayed backlog
/// beyond the floor it clears the floor exactly.
pub proof fn law_budget_reaches_floor_and_want(clear_bytes: nat, byte_size: nat, want: nat)
    ensures
        sweep_budget(clear_bytes, byte_size, want) >= sweep_floor(clear_bytes, byte_size),
        sweep_budget(clear_bytes, byte_size, want) >= want,
        want <= sweep_floor(clear_bytes, byte_size) ==> sweep_budget(clear_bytes, byte_size, want) == sweep_floor(
            clear_bytes,
            byte_size,
        ),
{
}

/// What is left of a backlog after some ticks that each want to clear half of it, where nothing is
/// added and every tick clears as much as it may.
pub open spec fn backlog_after(backlog: nat, clear_bytes: nat, byte_size: nat, ticks: nat) -> nat
    decreases ticks,
{
    if ticks == 0 {
        backlog
    } else {
        let limit = sweep_budget(clear_bytes, byte_size, backlog / 2);
        let left = if limit < backlog {
            (backlog - limit) as nat
        } else {
            0
        };
        backlog_after(left, clear_bytes, byte_size, (ticks - 1) as nat)
    }
}

/// With a decay of one half, a tick leaves no more than half of the backlog, rounded up, and a
/// backlog of up to two to the `k` regions is gone after `k + 1` ticks.
pub proof fn law_backlog_drains_in_log_ticks(backlog: nat, clear_bytes: nat, byte_size: nat, k: nat)
    requires
        byte_size > 0,
        clear_bytes > 0,
        backlog <= pow2(k),
    ensures
        backlog_after(backlog, clear_bytes, byte_size, 1) <= (backlog + 1) / 2,
        backlog_after(backlog, clear_bytes, byte_size, k + 1) == 0,
    decreases k,
{
    let floor = sweep_floor(clear_bytes, byte_size);
    let limit = sweep_budget(clear_bytes, byte_size, backlog / 2);
    let left = if limit < backlog {
        (backlog - limit) as nat
    } else {
        0
    };
    assert(floor >= 1) by (nonlinear_arith)
        requires
            floor == (clear_bytes + byte_size - 1) as nat / byte_size,
            clear_bytes >= 1,
            byte_size > 0,
    ;
    assert(limit >= backlog / 2);
    assert(limit >= 1);
    reveal_with_fuel(backlog_after, 2);
    if k == 0 {
        vstd::arithmetic::power2::lemma2_to64();
    } else {
        vstd::arithmetic::power2::lemma_pow2_unfold(k);
        law_backlog_drains_in_log_ticks(left, clear_bytes, byte_size, (k - 1) as nat);
    }
}

/// The budget of a tick is the least number of regions that is no less than it wants to clear, and whose
/// bytes are no fewer than are to be cleared at least.
pub proof fn law_budget_is_least(clear_bytes: nat, byte_size: nat, want: nat, n: nat)
    requires
        byte_size > 0,
    ensures
        sweep_budget(clear_bytes, byte_size, want) >= want,
        sweep_budget(clear_bytes, byte_size, want) * byte_size >= clear_bytes,
        n >= want && n * byte_size >= clear_bytes ==> sweep_budget(clear_bytes, byte_size, want) <= n,
        want * byte_size >= clear_bytes ==> sweep_budget(clear_bytes, byte_size, want) == want,
{
    let floor = sweep_floor(clear_bytes, byte_size);
    lemma_round_up(clear_bytes as int, byte_size as int);
    vstd::arithmetic::div_mod::lemma_fundamental_div_mod(clear_bytes as int, byte_size as int);
    vstd::arithmetic::div_mod::lemma_mod_bound(clear_bytes as int, byte_size as int);
    let (q, r) = (clear_bytes as int / byte_size as int, clear_bytes as int % byte_size as int);
    assert(floor * byte_size >= clear_bytes) by (nonlinear_arith)
        requires
            clear_bytes == byte_size * q + r,
            0 <= r < byte_size,
            floor == q + 1 || (r == 0 && floor == q),
    ;
    if n * byte_size >= clear_bytes {
        assert(floor <= n) by (nonlinear_arith)
            requires
                n * byte_size >= clear_bytes,
                clear_bytes == byte_size * q + r,
                0 <= r < byte_size,
                r > 0 ==> floor == q + 1,
                r == 0 ==> floor == q,
        ;
    }
    if want * byte_size >= clear_bytes {
        assert(floor <= want) by (nonlinear_arith)
            requires
                want * byte_size >= clear_bytes,
                clear_bytes == byte_size * q + r,
                0 <= r < byte_size,
                r > 0 ==> floor == q + 1,
                r == 0 ==> floor == q,
        ;
    }
    if want > floor {
        assert(want * byte_size >= floor * byte_size) by (nonlinear_arith)
            requires
                want > floor,
        ;
    }
}

/// With a decay of one half, a tick leaves exactly the other half of a backlog, rounded up, where half of it
/// has no fewer bytes than are to be cleared at least. Else it clears no more regions than those bytes need.
pub proof fn law_half_of_a_backlog_is_left(backlog: nat, clear_bytes: nat, byte_size: nat)
    requires
        byte_size > 0,
    ensures
        backlog / 2 * byte_size >= clear_bytes ==> backlog_after(backlog, clear_bytes, byte_size, 1) == backlog
            - backlog / 2,
        backlog / 2 * byte_size < clear_bytes && backlog * byte_size >= clear_bytes ==> {
            let cleared = backlog - backlog_after(backlog, clear_bytes, byte_size, 1);
            &&& cleared * byte_size >= clear_bytes
            &&& (cleared - 1) * byte_size < clear_bytes
        },
        backlog * byte_size < clear_bytes ==> backlog_after(backlog, clear_bytes, byte_size, 1) == 0,
        backlog_after(backlog, clear_bytes, byte_size, 0) == backlog,
{
    reveal_with_fuel(backlog_after, 2);
    let want = backlog / 2;
    let budget = sweep_budget(clear_bytes, byte_size, want);
    law_budget_is_least(clear_bytes, byte_size, want, backlog);
    assert(want * byte_size <= backlog * byte_size) by (nonlinear_arith)
        requires
            want <= backlog,
    ;
    if want * byte_size < clear_bytes {
        if budget > 0 {
            law_budget_is_least(clear_bytes, byte_size, want, (budget - 1) as nat);
        }
        assert(budget > want) by (nonlinear_arith)
            requires
                want * byte_size < clear_bytes,
                budget * byte_size >= clear_bytes,
                budget >= want,
        ;
        if backlog * byte_size < clear_bytes {
            assert(budget > backlog) by (nonlinear_arith)
                requires
                    backlog * byte_size < clear_bytes,
                    budget * byte_size >= clear_bytes,
                    byte_size > 0,
            ;
        }
    }
}

/// A worker that is set up, or told something new, waits for one interval from then on, and for no time at all
/// once the time has come. After a tick it waits until one interval after the time of that tick, however late
/// the tick was.
pub proof fn law_worker_ticks_at_its_interval(worker: BackgroundWorker, now: u128, later: u128)
    ensures
        ({
            let interval = worker.config.interval;
            let after = worker.scheduled(now);
            &&& after.config == worker.config
            &&& worker.next_cleanup is None && now + interval <= u128::MAX ==> {
                &&& after.waits(now) == interval
                &&& now <= later <= now + interval ==> after.waits(later) == now + interval - later
                &&& later > now + interval ==> after.waits(later) == 0
            }
            &&& worker.next_cleanup matches Some(at) ==> at + interval <= u128::MAX ==> {
                &&& after == worker.scheduled(later)
                &&& later <= at + interval ==> after.waits(later) == at + interval - later
                &&& later > at + interval ==> after.waits(later) == 0
            }
            &&& worker.next_cleanup is None ==> worker.waits(now) == FOREVER
            &&& worker.next_cleanup is None && now + interval > u128::MAX ==> after.waits(later) == FOREVER
            &&& worker.next_cleanup matches Some(at) ==> at + interval > u128::MAX ==> after.waits(later) == FOREVER
        }),
{
}

/// An update is overlaid and calls the next tick off until the worker is scheduled anew; when the time has come
/// the worker clears part of the backlog; when no more updates can come it ends.
pub proof fn law_worker_does_what_it_is_woken_for(worker: BackgroundWorker, update: BackgroundConfigUpdate)
    ensures
        worker.received(Event::Update(update)).0.config == worker.config.updated(update),
        worker.received(Event::Update(update)).0.next_cleanup is None,
        worker.received(Event::Update(update)).1 == Action::Wait,
        worker.received(Event::Timeout).0 == worker,
        worker.received(Event::Timeout).1 == Action::Maintain,
        worker.received(Event::Disconnected).0 == worker,
        worker.received(Event::Disconnected).1 == Action::Stop,
{
}

/// A new worker is started exactly where no running one took the update. Whatever it begins with, it then runs
/// with the knobs that the update sets, and for the others with those of the last configuration.
pub proof fn law_update_reaches_a_worker(
    control: BackgroundControl,
    update: BackgroundConfigUpdate,
    fresh: BackgroundWorkerConfig,
)
    ensures
        control.missed(Some(Ok(())), update) is None,
        control.missed(Some(Err(update)), update) == control.missed(None, update),
        control.missed(None, update) matches Some(leftover) && {
            let config = fresh.updated(leftover);
            &&& update.interval matches Some(v) ==> config.interval == v
            &&& update.interval is None ==> config.interval == control.last.interval
            &&& update.clear_bytes matches Some(v) ==> config.clear_bytes == v
            &&& update.clear_bytes is None ==> config.clear_bytes == control.last.clear_bytes
            &&& update.decay matches Some(v) ==> config.decay == v
            &&& update.decay is None ==> config.decay == control.last.decay
        },
{
}

} // verus!
