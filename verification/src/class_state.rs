//! The pool of one size class.
use crate::background::{sweep_step, SweepStep};
use crate::error::AllocError;
use crate::handle::Handle;
use crate::model::{
    all_regions, batch_limit, cached_len, empty_class, is_area, is_region, lemma_cleaned,
    lemma_next_area_fits, lemma_position_in_area, lemma_recycled, lemma_refilled, lemma_sweep, lemma_takes,
    lemma_wf_with_stats, lemma_with_thread, lemma_without_thread, lemma_wrapping_total, next_area_bytes,
    no_stats, regions_of, running_stats, sum_stats, AllocStats, ClassView, LocalView, RefillView, Region,
    INITIAL_SIZE,
};
use crate::queue::{
    ask_for_batch, batch_moved, injector_items, injector_len, injector_new, injector_push, move_asks_again,
    move_batch, passed_over, worker_is_lifo, worker_items, worker_len, worker_new_fifo, worker_new_lifo,
    worker_pop, worker_push, worker_steal, Answers, Steal, RETRY_LIMIT,
};
use crate::size_class::{lemma_class_bytes, SizeClass};
use crate::stats::{class_stats, SizeClassStats};
use crossbeam_deque::{Injector, Worker};
use vstd::prelude::*;

verus! {

/// No event counted yet.
fn no_counts() -> (stats: AllocStats)
    ensures
        stats == no_stats(),
{
    AllocStats { allocations: 0, slow_path: 0, refill: 0, deallocations: 0, clear_eager: 0, clear_slow: 0 }
}

/// The events of both counters.
fn add_counts(a: AllocStats, b: AllocStats) -> (stats: AllocStats)
    ensures
        stats == sum_stats(a, b),
{
    AllocStats {
        allocations: a.allocations.wrapping_add(b.allocations),
        slow_path: a.slow_path.wrapping_add(b.slow_path),
        refill: a.refill.wrapping_add(b.refill),
        deallocations: a.deallocations.wrapping_add(b.deallocations),
        clear_eager: a.clear_eager.wrapping_add(b.clear_eager),
        clear_slow: a.clear_slow.wrapping_add(b.clear_slow),
    }
}

/// Per-thread, per-size-class state.
pub struct LocalSizeClass {
    /// Owning thread's ID.
    thread_id: u64,
    /// Local memory queue.
    worker: Worker<(usize, usize)>,
    /// Statistics maintained by this thread.
    stats: AllocStats,
}

impl View for LocalSizeClass {
    type V = LocalView;

    closed spec fn view(&self) -> LocalView {
        LocalView { thread_id: self.thread_id, items: worker_items(self.worker), stats: self.stats }
    }
}

/// Per-size-class state.
pub struct SizeClassState {
    /// Size class we're covering.
    size_class: SizeClass,
    /// The mapped areas. Their memory is never accessed here.
    areas: Vec<(usize, usize)>,
    /// Queue to distribute memory globally.
    injector: Injector<(usize, usize)>,
    /// Queue to distribute memory globally, freed memory.
    clean_injector: Injector<(usize, usize)>,
    /// The threads' caches, from which all participating threads can steal memory.
    locals: Vec<LocalSizeClass>,
    /// Summed stats for terminated threads.
    alloc_stats: AllocStats,
    /// Total virtual size of all mappings in this size class in bytes.
    total_bytes: usize,
    /// Count of areas backing this size class.
    area_count: usize,
}

impl View for SizeClassState {
    type V = ClassView;

    closed spec fn view(&self) -> ClassView {
        ClassView {
            exponent: self.size_class.exponent(),
            areas: self.areas@,
            total_bytes: self.total_bytes,
            global: injector_items(self.injector),
            clean: injector_items(self.clean_injector),
            locals: self.locals@.map_values(|l: LocalSizeClass| l@),
            retired: self.alloc_stats,
        }
    }
}

/// What a thread gets when it asks its pool for a region.
pub enum Refill {
    /// A region.
    Ready(Handle),
    /// The pool is empty: an area of this many bytes is to be mapped.
    NeedArea(usize),
    /// The shared queues asked for another attempt to the last. Nothing happened, and the call is to
    /// be repeated.
    Again,
}

/// Regions that are out to be cleared.
pub struct Sweep {
    /// The regions, in the order in which they were to leave.
    pub regions: Vec<Handle>,
    /// Whether as many regions were taken as could be; not so where the queue kept asking for
    /// another attempt.
    pub complete: bool,
    /// How many more regions the tick may take.
    pub left: usize,
}

impl Sweep {
    /// How many regions a tick goes on to take, where it goes on.
    pub fn rest(&self) -> (rest: Option<usize>)
        ensures
            rest == if self.complete {
                None
            } else {
                Some(self.left)
            },
    {
        if self.complete {
            None
        } else {
            Some(self.left)
        }
    }
}

/// The regions of handles.
pub open spec fn handle_views(handles: Seq<Handle>) -> Seq<Region> {
    handles.map_values(|handle: Handle| handle@)
}

/// The most that a thread takes at once from a shared queue.
fn batch_size(local_buffer_bytes: usize, byte_size: usize) -> (limit: usize)
    requires
        byte_size > 0,
    ensures
        limit == batch_limit(local_buffer_bytes as nat, byte_size as nat),
        limit > 0,
{
    let half: usize = local_buffer_bytes / byte_size / 2;
    if half > 1 {
        half
    } else {
        1
    }
}

impl SizeClassState {
    /// The state is that of a pool on a machine with 64-bit words.
    pub closed spec fn wf(self) -> bool {
        &&& usize::BITS == 64
        &&& self@.wf()
        &&& self.area_count == self.areas@.len()
        &&& forall|i: int| 0 <= i < self.locals@.len() ==> worker_is_lifo((#[trigger] self.locals@[i]).worker)
    }

    /// What is seen of a state in order.
    pub proof fn lemma_wf(self)
        requires
            self.wf(),
        ensures
            usize::BITS == 64,
            self@.wf(),
    {
    }

    /// A pool without memory.
    pub(crate) fn new(size_class: SizeClass) -> (state: Self)
        requires
            usize::BITS == 64,
            size_class.valid(),
        ensures
            state.wf(),
            state@ == empty_class(size_class.exponent()),
    {
        let state = Self {
            size_class,
            areas: Vec::new(),
            injector: injector_new(),
            clean_injector: injector_new(),
            locals: Vec::new(),
            alloc_stats: no_counts(),
            total_bytes: 0,
            area_count: 0,
        };
        proof {
            vstd::arithmetic::div_mod::lemma_small_mod(0, usize::MAX as nat + 1);
            assert(state@ =~= empty_class(size_class.exponent()));
        }
        state
    }

    /// Position of a thread's cache, if it has one.
    pub(crate) fn position(&self, thread_id: u64) -> (who: Option<usize>)
        requires
            self.wf(),
        ensures
            who is Some <==> self@.has_thread(thread_id),
            who matches Some(i) ==> i < self@.locals.len() && self@.locals[i as int].thread_id == thread_id,
    {
        let mut i: usize = 0;
        while i < self.locals.len()
            invariant
                i <= self.locals@.len(),
                self@.locals.len() == self.locals@.len(),
                forall|j: int| 0 <= j < i ==> (#[trigger] self@.locals[j]).thread_id != thread_id,
            decreases self.locals@.len() - i,
        {
            if self.locals[i].thread_id == thread_id {
                assert(self@.locals[i as int].thread_id == thread_id);
                return Some(i);
            }
            assert(self@.locals[i as int].thread_id == self.locals@[i as int].thread_id);
            i = i + 1;
        }
        None
    }

    /// Set up the cache of a thread, unless it has one.
    pub(crate) fn register(&mut self, thread_id: u64)
        requires
            old(self).wf(),
        ensures
            final(self).wf(),
            final(self)@ == if old(self)@.has_thread(thread_id) {
                old(self)@
            } else {
                old(self)@.with_thread(thread_id)
            },
    {
        if self.position(thread_id).is_some() {
            return ;
        }
        proof {
            lemma_with_thread(self@, thread_id);
        }
        self.locals.push(LocalSizeClass { thread_id, worker: worker_new_lifo(), stats: no_counts() });
        proof {
            assert(self@ =~= old(self)@.with_thread(thread_id));
        }
    }

    /// Remove the cache of a thread that ends, if it has one: sends memory back to the global
    /// state, and adds its metrics to those of the terminated threads.
    pub(crate) fn unregister(&mut self, thread_id: u64)
        requires
            old(self).wf(),
        ensures
            final(self).wf(),
            !old(self)@.has_thread(thread_id) ==> final(self)@ == old(self)@,
            forall|who: int|
                0 <= who < old(self)@.locals.len() && (#[trigger] old(self)@.locals[who]).thread_id == thread_id
                    ==> final(self)@ == old(self)@.without_thread(who),
    {
        let who: usize = match self.position(thread_id) {
            Some(who) => who,
            None => {
                return ;
            },
        };
        proof {
            lemma_without_thread(self@, who as int);
        }
        let mut local: LocalSizeClass = self.locals.remove(who);
        let ghost items = old(self)@.locals[who as int].items;
        assert(local@ == old(self)@.locals[who as int]);
        assert(worker_is_lifo(local.worker)) by {
            assert(worker_is_lifo(old(self).locals@[who as int].worker));
        }
        let mut left: usize = worker_len(&local.worker);
        while left > 0
            invariant
                left == worker_items(local.worker).len(),
                left <= items.len(),
                worker_is_lifo(local.worker),
                worker_items(local.worker) == items.subrange(0, left as int),
                local.stats == old(self)@.locals[who as int].stats,
                injector_items(self.injector) == old(self)@.global + items.reverse().subrange(
                    0,
                    items.len() - left,
                ),
                self.size_class == old(self).size_class,
                self.areas == old(self).areas,
                self.clean_injector == old(self).clean_injector,
                self.locals@ == old(self).locals@.remove(who as int),
                self.alloc_stats == old(self).alloc_stats,
                self.total_bytes == old(self).total_bytes,
                self.area_count == old(self).area_count,
            decreases left,
        {
            if let Some(region) = worker_pop(&mut local.worker) {
                injector_push(&mut self.injector, region);
                proof {
                    assert(items.subrange(0, left as int).drop_last() =~= items.subrange(0, left - 1));
                    assert(items.reverse().subrange(0, items.len() - left + 1) =~= items.reverse().subrange(
                        0,
                        items.len() - left,
                    ).push(region));
                }
            }
            left = left - 1;
        }
        self.alloc_stats = add_counts(self.alloc_stats, local.stats);
        proof {
            assert(items.reverse().subrange(0, items.len() as int) =~= items.reverse());
            assert(self@ =~= old(self)@.without_thread(who as int));
            assert forall|i: int|
                0 <= i < old(self)@.locals.len() && (#[trigger] old(self)@.locals[i]).thread_id
                    == thread_id implies self@ == old(self)@.without_thread(i) by {
                assert(i == who);
            }
            assert forall|i: int| 0 <= i < self.locals@.len() implies worker_is_lifo(
                (#[trigger] self.locals@[i]).worker,
            ) by {
                let j = if i < who {
                    i
                } else {
                    i + 1
                };
                assert(self.locals@[i] == old(self).locals@[j]);
            }
        }
    }

    /// One attempt to obtain a region for a thread whose cache is empty. The sources are asked in this
    /// order, until one gives a region:
    /// 1. the global state,
    /// 2. the global cleaned state,
    /// 3. the caches of the threads.
    fn ask_sources(&mut self, who: usize, limit: usize) -> (answers: Answers<(usize, usize)>)
        requires
            old(self).wf(),
            who < old(self)@.locals.len(),
            old(self)@.locals[who as int].items.len() == 0,
            limit > 0,
        ensures
            final(self).wf(),
            answers.global is Empty <==> old(self)@.global.len() == 0,
            answers.clean is Some <==> !(answers.global is Success),
            answers.clean matches Some(answer) ==> (answer is Empty <==> old(self)@.clean.len() == 0),
            !(answers.global is Success) ==> passed_over(
                old(self)@.global,
                old(self)@.locals[who as int].items,
                limit as nat,
            ),
            answers.clean matches Some(answer) ==> !(answer is Success) ==> passed_over(
                old(self)@.clean,
                old(self)@.locals[who as int].items,
                limit as nat,
            ),
            answers.caches is Some <==> (answers.clean matches Some(answer) && !(answer is Success)),
            answers.caches matches Some(answer) ==> !(answer is Retry),
            answers.caches matches Some(answer) ==> (answer is Empty <==> old(self)@.caches_empty()),
            match answers.first() {
                Steal::Success(region) => {
                    if answers.global is Success {
                        old(self)@.takes_global(final(self)@, who as int, region, limit as nat)
                    } else if answers.clean->0 is Success {
                        old(self)@.takes_clean(final(self)@, who as int, region, limit as nat)
                    } else {
                        exists|other: int| #[trigger] old(self)@.takes_from(final(self)@, other, region)
                    }
                },
                _ => final(self)@ == old(self)@,
            },
    {
        let global: Steal<(usize, usize)> = ask_for_batch(
            &mut self.injector,
            &mut self.locals[who].worker,
            limit,
        );
        if let Steal::Success(region) = global {
            proof {
                assert(self@.locals =~= old(self)@.with_items(who as int, self@.locals[who as int].items).locals);
                assert(old(self)@.takes_global(self@, who as int, region, limit as nat));
            }
            return Answers { global: Steal::Success(region), clean: None, caches: None };
        }
        proof {
            assert(self@.locals =~= old(self)@.locals);
        }
        let clean: Steal<(usize, usize)> = ask_for_batch(
            &mut self.clean_injector,
            &mut self.locals[who].worker,
            limit,
        );
        if let Steal::Success(region) = clean {
            proof {
                assert(self@.locals =~= old(self)@.with_items(who as int, self@.locals[who as int].items).locals);
                assert(old(self)@.takes_clean(self@, who as int, region, limit as nat));
            }
            return Answers { global, clean: Some(Steal::Success(region)), caches: None };
        }
        proof {
            assert(self@.locals =~= old(self)@.locals);
        }
        let caches: Steal<(usize, usize)> = self.ask_caches();
        Answers { global, clean: Some(clean), caches: Some(caches) }
    }

    /// One attempt to obtain a region from the threads' caches.
    fn ask_caches(&mut self) -> (outcome: Steal<(usize, usize)>)
        requires
            old(self).wf(),
        ensures
            final(self).wf(),
            !(outcome is Retry),
            outcome is Empty <==> old(self)@.caches_empty(),
            outcome is Empty ==> final(self)@ == old(self)@,
            outcome matches Steal::Success(region) ==> exists|other: int| #[trigger]
                old(self)@.takes_from(final(self)@, other, region),
    {
        let mut other: usize = 0;
        while other < self.locals.len()
            invariant
                self.wf(),
                self@ == old(self)@,
                other <= self@.locals.len(),
                forall|i: int| 0 <= i < other ==> (#[trigger] self@.locals[i]).items.len() == 0,
            decreases self@.locals.len() - other,
        {
            let ghost before = self@;
            match worker_steal(&mut self.locals[other].worker) {
                Steal::Success(region) => {
                    proof {
                        assert(self@.locals =~= before.with_items(other as int, self@.locals[other as int].items).locals);
                        assert(before.locals[other as int].items.drop_first() == self@.locals[other as int].items);
                        assert(before.locals[other as int].items.len() > 0);
                        assert(old(self)@.takes_from(self@, other as int, region));
                    }
                    return Steal::Success(region);
                },
                Steal::Retry | Steal::Empty => {},
            }
            proof {
                assert(self@.locals =~= before.locals);
            }
            other = other + 1;
        }
        Steal::Empty
    }

    /// Get a memory area. Tries to get a region from the local cache, before obtaining data from
    /// the global state. As a last option, obtains memory from other workers.
    ///
    /// Returns [`AllocError::OutOfMemory`] if all pools are empty. Returns no region where the shared
    /// queues ask for another attempt to the last: the call is to be repeated then.
    fn get(&mut self, who: usize, local_buffer_bytes: usize) -> (region: Result<Option<Handle>, AllocError>)
        requires
            old(self).wf(),
            who < old(self)@.locals.len(),
        ensures
            final(self).wf(),
            region is Err <==> old(self)@.exhausted(),
            match region {
                Ok(Some(handle)) => {
                    &&& old(self)@.takes(
                        final(self)@,
                        who as int,
                        handle@,
                        batch_limit(local_buffer_bytes as nat, old(self)@.bytes()),
                    )
                    &&& is_region(handle@, old(self)@.bytes())
                    &&& old(self)@.free() == final(self)@.free().insert(handle@)
                },
                Ok(None) => {
                    &&& final(self)@ == old(self)@
                    &&& old(self)@.caches_empty()
                    &&& passed_over(
                        old(self)@.global,
                        old(self)@.locals[who as int].items,
                        batch_limit(local_buffer_bytes as nat, old(self)@.bytes()),
                    )
                    &&& passed_over(
                        old(self)@.clean,
                        old(self)@.locals[who as int].items,
                        batch_limit(local_buffer_bytes as nat, old(self)@.bytes()),
                    )
                },
                Err(e) => e is OutOfMemory && final(self)@ == old(self)@,
            },
    {
        let ghost limit_spec = batch_limit(local_buffer_bytes as nat, self@.bytes());
        let cached: Option<(usize, usize)> = worker_pop(&mut self.locals[who].worker);
        if let Some((addr, len)) = cached {
            proof {
                assert(self@.locals =~= old(self)@.with_items(who as int, self@.locals[who as int].items).locals);
                lemma_takes(old(self)@, self@, who as int, (addr, len), limit_spec);
                assert(old(self)@.locals[who as int].items.len() > 0);
            }
            return Ok(Some(Handle::new(addr, len)));
        }
        proof {
            assert(self@.locals =~= old(self)@.locals);
        }
        let limit: usize = batch_size(local_buffer_bytes, self.size_class.byte_size());
        let mut attempt: u64 = 0;
        while attempt < RETRY_LIMIT
            invariant
                self.wf(),
                self@ == old(self)@,
                who < self@.locals.len(),
                self@.locals[who as int].items.len() == 0,
                attempt > 0 ==> self@.caches_empty() && !self@.exhausted() && passed_over(
                    self@.global,
                    self@.locals[who as int].items,
                    limit as nat,
                ) && passed_over(self@.clean, self@.locals[who as int].items, limit as nat),
                limit == limit_spec,
                limit_spec == batch_limit(local_buffer_bytes as nat, self@.bytes()),
                limit > 0,
            decreases RETRY_LIMIT - attempt,
        {
            match self.ask_sources(who, limit).settle() {
                Steal::Success((addr, len)) => {
                    proof {
                        lemma_takes(old(self)@, self@, who as int, (addr, len), limit as nat);
                    }
                    return Ok(Some(Handle::new(addr, len)));
                },
                Steal::Empty => {
                    return Err(AllocError::OutOfMemory);
                },
                Steal::Retry => {
                    attempt = attempt + 1;
                },
            }
        }
        Ok(None)
    }

    /// Like [`Self::get()`] but trying to refill the pool if it is empty: then the answer is the
    /// area to map, which [`Self::complete_refill`] takes.
    pub(crate) fn get_with_refill(
        &mut self,
        who: usize,
        local_buffer_bytes: usize,
        growth_dampener: usize,
    ) -> (refill: Refill)
        requires
            old(self).wf(),
            who < old(self)@.locals.len(),
        ensures
            final(self).wf(),
            old(self)@.allocates(
                final(self)@,
                who as int,
                refill_view(refill),
                local_buffer_bytes as nat,
                growth_dampener,
            ),
    {
        let ghost stats = self@.locals[who as int].stats;
        match self.get(who, local_buffer_bytes) {
            Ok(Some(handle)) => {
                let ghost taken = self@;
                proof {
                    lemma_takes(
                        old(self)@,
                        taken,
                        who as int,
                        handle@,
                        batch_limit(local_buffer_bytes as nat, old(self)@.bytes()),
                    );
                }
                self.locals[who].stats.allocations = self.locals[who].stats.allocations.wrapping_add(1);
                proof {
                    lemma_wf_with_stats(taken, who as int, self@.locals[who as int].stats);
                    assert(self@ =~= taken.with_stats(who as int, self@.locals[who as int].stats));
                    assert(self@.with_stats(who as int, stats) =~= taken);
                }
                Refill::Ready(handle)
            },
            Ok(None) => Refill::Again,
            Err(_) => {
                // The pool is used exclusively: nobody can have refilled it meanwhile.
                self.locals[who].stats.allocations = self.locals[who].stats.allocations.wrapping_add(1);
                self.locals[who].stats.slow_path = self.locals[who].stats.slow_path.wrapping_add(1);
                self.locals[who].stats.refill = self.locals[who].stats.refill.wrapping_add(1);
                proof {
                    lemma_wf_with_stats(old(self)@, who as int, self@.locals[who as int].stats);
                    assert(self@ =~= old(self)@.with_stats(who as int, self@.locals[who as int].stats));
                }
                Refill::NeedArea(self.next_area_len(growth_dampener))
            },
        }
    }

    /// Refill the memory pool with the area that was mapped, and get its first region. The other
    /// regions go to the clean memory.
    ///
    /// Returns an error if the area could not be mapped.
    pub(crate) fn complete_refill(&mut self, len: usize, mapped: Result<usize, std::io::Error>) -> (region: Result<
        Handle,
        AllocError,
    >)
        requires
            old(self).wf(),
            mapped matches Ok(addr) ==> is_area((addr, len), old(self)@.bytes()),
        ensures
            final(self).wf(),
            match mapped {
                Ok(addr) => {
                    &&& final(self)@ == old(self)@.refilled((addr, len))
                    &&& region matches Ok(handle) && handle@ == regions_of((addr, len), old(self)@.bytes())[0]
                },
                Err(e) => {
                    &&& final(self)@ == old(self)@
                    &&& region == Err::<Handle, AllocError>(AllocError::Io(e))
                },
            },
    {
        let addr: usize = match mapped {
            Ok(addr) => addr,
            Err(e) => {
                return Err(AllocError::Io(e));
            },
        };
        let ghost area = (addr, len);
        let ghost regions = regions_of(area, self@.bytes());
        proof {
            lemma_class_bytes(self@.exponent);
            lemma_refilled(self@, area);
        }
        let byte_size: usize = self.size_class.byte_size();
        let count: usize = len / byte_size;
        // Capture first region to return immediately.
        let region: Handle = Handle::new(addr, byte_size);
        // Stash remaining in the injector.
        let mut next: usize = 1;
        while next < count
            invariant
                1 <= next <= count,
                count == regions.len(),
                regions == regions_of(area, byte_size as nat),
                area == (addr, len),
                is_area(area, byte_size as nat),
                byte_size > 0,
                all_regions(regions, byte_size as nat),
                self.size_class == old(self).size_class,
                self.areas == old(self).areas,
                self.injector == old(self).injector,
                injector_items(self.clean_injector) == old(self)@.clean + regions.subrange(1, next as int),
                self.locals == old(self).locals,
                self.alloc_stats == old(self).alloc_stats,
                self.total_bytes == old(self).total_bytes,
            decreases count - next,
        {
            proof {
                lemma_position_in_area(area, byte_size as nat, next as int);
            }
            let start: usize = addr + next * byte_size;
            injector_push(&mut self.clean_injector, (start, byte_size));
            proof {
                assert((start, byte_size) == regions[next as int]);
                assert(regions.subrange(1, next + 1) =~= regions.subrange(1, next as int).push(
                    (start, byte_size),
                ));
            }
            next = next + 1;
        }
        self.areas.push((addr, len));
        self.total_bytes = self.total_bytes.wrapping_add(len);
        self.area_count = self.areas.len();
        proof {
            assert(regions.subrange(1, count as int) =~= regions.drop_first());
            assert(self@ =~= old(self)@.refilled(area));
        }
        Ok(region)
    }

    /// Recycle memory. Stores it locally or forwards it to the global state. Where memory is
    /// returned eagerly, what would go to the global state comes back instead, to be cleared with
    /// [`Handle::fast_clear`] and handed to [`Self::return_cleared`].
    pub(crate) fn push(
        &mut self,
        who: usize,
        mem: Handle,
        local_buffer_bytes: usize,
        eager_return: bool,
    ) -> (to_clear: Option<Handle>)
        requires
            old(self).wf(),
            who < old(self)@.locals.len(),
            is_region(mem@, old(self)@.bytes()),
        ensures
            final(self).wf(),
            final(self)@ == old(self)@.recycled(who as int, mem@, local_buffer_bytes as nat, eager_return),
            to_clear is Some <==> eager_return && !old(self)@.cache_has_room(
                who as int,
                local_buffer_bytes as nat,
            ),
            to_clear matches Some(handle) ==> handle@ == mem@,
    {
        proof {
            lemma_recycled(self@, who as int, mem@, local_buffer_bytes as nat, eager_return);
        }
        self.locals[who].stats.deallocations = self.locals[who].stats.deallocations.wrapping_add(1);
        if worker_len(&self.locals[who].worker) >= local_buffer_bytes / self.size_class.byte_size() {
            if eager_return {
                self.locals[who].stats.clear_eager = self.locals[who].stats.clear_eager.wrapping_add(1);
                proof {
                    assert(self@ =~= old(self)@.recycled(
                        who as int,
                        mem@,
                        local_buffer_bytes as nat,
                        eager_return,
                    ));
                }
                return Some(mem);
            }
            injector_push(&mut self.injector, mem.into_raw_parts());
        } else {
            worker_push(&mut self.locals[who].worker, mem.into_raw_parts());
        }
        proof {
            assert(self@ =~= old(self)@.recycled(who as int, mem@, local_buffer_bytes as nat, eager_return));
        }
        None
    }

    /// Hand a region to the global state after it was cleared.
    pub(crate) fn return_cleared(&mut self, mem: Handle)
        requires
            old(self).wf(),
            is_region(mem@, old(self)@.bytes()),
        ensures
            final(self).wf(),
            final(self)@ == (ClassView { global: old(self)@.global.push(mem@), ..old(self)@ }),
    {
        injector_push(&mut self.injector, mem.into_raw_parts());
        proof {
            assert(self@.locals =~= old(self)@.locals);
        }
    }

    /// Add the areas of this size class to a list.
    pub(crate) fn append_areas(&self, list: &mut Vec<(usize, usize)>)
        ensures
            final(list)@ == old(list)@ + self@.areas,
    {
        let mut i: usize = 0;
        assert(list@ =~= old(list)@ + self.areas@.take(0));
        while i < self.areas.len()
            invariant
                i <= self.areas@.len(),
                list@ == old(list)@ + self.areas@.take(i as int),
            decreases self.areas@.len() - i,
        {
            list.push(self.areas[i]);
            assert(self.areas@.take(i + 1) =~= self.areas@.take(i as int).push(self.areas@[i as int]));
            i = i + 1;
        }
        assert(self.areas@.take(i as int) =~= self.areas@);
    }

    /// Number of regions in the global state that have not been cleared.
    pub fn backlog(&self) -> (len: usize)
        ensures
            len == self@.global.len(),
    {
        injector_len(&self.injector)
    }

    /// One attempt to take up to `limit` regions from the global state.
    pub(crate) fn take_batch(&mut self, limit: usize) -> (outcome: Steal<Vec<Handle>>)
        requires
            old(self).wf(),
            limit > 0,
        ensures
            final(self).wf(),
            outcome is Empty <==> old(self)@.global.len() == 0,
            outcome is Retry ==> move_asks_again(old(self)@.global, limit as nat),
            !(outcome is Success) ==> final(self)@ == old(self)@,
            outcome matches Steal::Success(regions) ==> {
                &&& 1 <= regions@.len() <= limit
                &&& regions@.len() <= old(self)@.global.len()
                &&& handle_views(regions@) == old(self)@.global.subrange(0, regions@.len() as int)
                &&& final(self)@ == old(self)@.swept(regions@.len())
            },
    {
        let ghost global = self@.global;
        let mut worker: Worker<(usize, usize)> = worker_new_fifo();
        assert(worker_items(worker) =~= Seq::empty());
        let outcome: Steal<()> = move_batch(&mut self.injector, &mut worker, limit);
        match outcome {
            Steal::Empty => {
                assert(self@ =~= old(self)@);
                return Steal::Empty;
            },
            Steal::Retry => {
                assert(self@ =~= old(self)@);
                return Steal::Retry;
            },
            Steal::Success(_) => {},
        }
        let ghost batch = worker_items(worker);
        proof {
            let taken = choose|taken: nat|
                taken <= limit && #[trigger] batch_moved(
                    global,
                    self@.global,
                    Seq::empty(),
                    batch,
                    false,
                    0,
                    taken,
                );
            assert(batch_moved(global, self@.global, Seq::empty(), batch, false, 0, taken));
            assert(batch =~= global.subrange(0, taken as int));
            assert(self@ =~= old(self)@.swept(batch.len()));
            lemma_sweep(old(self)@, batch.len());
        }
        let ghost swept = self@;
        let mut regions: Vec<Handle> = Vec::new();
        let mut waiting: usize = worker_len(&worker);
        assert(handle_views(regions@) =~= global.subrange(0, 0));
        assert(batch.subrange(0, batch.len() as int) =~= batch);
        while waiting > 0
            invariant
                self.wf(),
                self@ == swept,
                old(self).wf(),
                global == old(self)@.global,
                batch.len() <= global.len(),
                batch == global.subrange(0, batch.len() as int),
                waiting == worker_items(worker).len(),
                waiting <= batch.len(),
                worker_items(worker) == batch.subrange(batch.len() - waiting, batch.len() as int),
                !worker_is_lifo(worker),
                regions@.len() == batch.len() - waiting,
                handle_views(regions@) == global.subrange(0, regions@.len() as int),
            decreases waiting,
        {
            let (addr, len): (usize, usize) = worker_pop(&mut worker).unwrap();
            let ghost earlier = regions@;
            proof {
                let at = earlier.len() as int;
                assert((addr, len) == global[at]);
                assert(is_region(global[at], old(self)@.bytes()));
            }
            regions.push(Handle::new(addr, len));
            proof {
                assert(handle_views(regions@) =~= handle_views(earlier).push((addr, len)));
                assert(global.subrange(0, earlier.len() as int + 1) =~= global.subrange(
                    0,
                    earlier.len() as int,
                ).push((addr, len)));
                assert(batch.subrange(batch.len() - waiting, batch.len() as int).drop_first() =~= batch.subrange(
                    batch.len() - waiting + 1,
                    batch.len() as int,
                ));
            }
            waiting = waiting - 1;
        }
        Steal::Success(regions)
    }

    /// Take up to `limit` regions from the global state, to be cleared with [`Handle::clear`] and
    /// handed to [`Self::finish_sweep`]. It falls short of `limit` with regions left behind only where
    /// the queue asks for another attempt to the last.
    pub(crate) fn take_backlog(&mut self, limit: usize) -> (sweep: Sweep)
        requires
            old(self).wf(),
        ensures
            final(self).wf(),
            sweep.regions@.len() <= limit,
            sweep.regions@.len() <= old(self)@.global.len(),
            handle_views(sweep.regions@) == old(self)@.global.subrange(0, sweep.regions@.len() as int),
            final(self)@ == old(self)@.swept(sweep.regions@.len()),
            sweep.complete <==> sweep.regions@.len() == limit || final(self)@.global.len() == 0,
            sweep.left == limit - sweep.regions@.len(),
            !sweep.complete ==> move_asks_again(final(self)@.global, sweep.left as nat),
    {
        let ghost global = self@.global;
        let mut regions: Vec<Handle> = Vec::new();
        let mut progress: SweepStep = SweepStep::begin(limit);
        proof {
            assert(global.subrange(0, global.len() as int) =~= global);
            assert(handle_views(regions@) =~= global.subrange(0, 0));
            assert(self@ =~= self@.swept(0));
        }
        loop
            invariant
                self.wf(),
                old(self).wf(),
                global == old(self)@.global,
                regions@.len() <= limit,
                regions@.len() <= global.len(),
                handle_views(regions@) == global.subrange(0, regions@.len() as int),
                self@ == old(self)@.swept(regions@.len()),
                match progress {
                    SweepStep::Continue { left, attempt } => left == limit - regions@.len() && left > 0 && attempt
                        < RETRY_LIMIT,
                    SweepStep::Done => regions@.len() == limit || self@.global.len() == 0,
                    SweepStep::GaveUp => regions@.len() < limit && self@.global.len() > 0 && move_asks_again(
                        self@.global,
                        (limit - regions@.len()) as nat,
                    ),
                },
            ensures
                !(progress is Continue),
            decreases progress.left(), progress.attempts_left(),
        {
            let (left, attempt): (usize, u64) = match progress {
                SweepStep::Continue { left, attempt } => (left, attempt),
                _ => {
                    break ;
                },
            };
            let ghost before = self@;
            let ghost earlier = regions@;
            let counted: Steal<usize> = match self.take_batch(left) {
                Steal::Success(mut batch) => {
                    let count: usize = batch.len();
                    proof {
                        let views = handle_views(batch@);
                        assert(handle_views(earlier + batch@) =~= handle_views(earlier) + views);
                        assert(handle_views(earlier) + views =~= global.subrange(0, (earlier.len() + count) as int));
                        assert(self@ =~= old(self)@.swept(earlier.len() + count as nat));
                    }
                    regions.append(&mut batch);
                    Steal::Success(count)
                },
                Steal::Empty => Steal::Empty,
                Steal::Retry => Steal::Retry,
            };
            progress = sweep_step(left, attempt, counted);
        }
        let complete: bool = match progress {
            SweepStep::GaveUp => false,
            _ => true,
        };
        let left: usize = limit - regions.len();
        Sweep { regions, complete, left }
    }

    /// Hand regions to the clean memory after they were cleared, and count them.
    pub(crate) fn finish_sweep(&mut self, regions: Vec<Handle>)
        requires
            old(self).wf(),
            all_regions(handle_views(regions@), old(self)@.bytes()),
        ensures
            final(self).wf(),
            final(self)@ == old(self)@.cleaned(handle_views(regions@)),
    {
        let ghost views = handle_views(regions@);
        proof {
            lemma_cleaned(self@, views);
            assert(old(self)@.clean + views.subrange(0, 0) =~= old(self)@.clean);
        }
        let mut i: usize = 0;
        while i < regions.len()
            invariant
                i <= regions@.len(),
                views == handle_views(regions@),
                injector_items(self.clean_injector) == old(self)@.clean + views.subrange(0, i as int),
                self.size_class == old(self).size_class,
                self.areas == old(self).areas,
                self.injector == old(self).injector,
                self.locals == old(self).locals,
                self.alloc_stats == old(self).alloc_stats,
                self.total_bytes == old(self).total_bytes,
                self.area_count == old(self).area_count,
            decreases regions@.len() - i,
        {
            injector_push(&mut self.clean_injector, (regions[i].addr(), regions[i].len()));
            proof {
                assert(views.subrange(0, i + 1) =~= views.subrange(0, i as int).push(views[i as int]));
            }
            i = i + 1;
        }
        self.alloc_stats.clear_slow = self.alloc_stats.clear_slow.wrapping_add(regions.len() as u64);
        proof {
            assert(views.subrange(0, regions@.len() as int) =~= views);
            assert(self@ =~= old(self)@.cleaned(views));
        }
    }

    /// The size in bytes of the next area to map.
    ///
    /// We would like to grow the area capacity by a factor of `1+1/(growth_dampener+1)`, but at
    /// least by that of an initial area.
    fn next_area_len(&self, growth_dampener: usize) -> (len: usize)
        requires
            self.wf(),
        ensures
            len == next_area_bytes(self@.last_area_len(), self@.bytes(), growth_dampener),
    {
        let byte_size: usize = self.size_class.byte_size();
        let initial: usize = INITIAL_SIZE / byte_size;
        let initial_capacity: usize = if initial > 1 {
            initial
        } else {
            1
        };
        let last_len: usize = if self.areas.len() > 0 {
            self.areas[self.areas.len() - 1].1
        } else {
            0
        };
        let last_capacity: usize = last_len / byte_size;
        let growth: usize = last_capacity / growth_dampener.saturating_add(1);
        let step: usize = if growth > initial_capacity {
            growth
        } else {
            initial_capacity
        };
        proof {
            lemma_class_bytes(self.size_class.exponent());
            lemma_next_area_fits(last_len as int, byte_size as int, initial_capacity as int, step as int);
        }
        (last_capacity + step) * byte_size
    }
}

impl SizeClassStats {
    /// The statistics of a size class.
    pub fn from(size_class_state: &SizeClassState) -> (stats: Self)
        requires
            size_class_state.wf(),
        ensures
            stats == class_stats(size_class_state@),
            stats.areas == size_class_state@.areas.len(),
            stats.clean_regions == size_class_state@.clean.len(),
            stats.global_regions == size_class_state@.global.len(),
    {
        let ghost view = size_class_state@;
        let areas: usize = size_class_state.area_count;
        let area_total_bytes: usize = size_class_state.total_bytes;
        let global_regions: usize = injector_len(&size_class_state.injector);
        let clean_regions: usize = injector_len(&size_class_state.clean_injector);
        let mut thread_regions: usize = 0;
        let mut totals: AllocStats = no_counts();
        let mut i: usize = 0;
        proof {
            lemma_wrapping_total(0, 0, 0);
            assert(view.locals.take(0) =~= Seq::empty());
        }
        while i < size_class_state.locals.len()
            invariant
                i <= size_class_state.locals@.len(),
                view == size_class_state@,
                thread_regions as nat == cached_len(view.locals.take(i as int)) % (usize::MAX as nat + 1),
                totals == running_stats(view.locals.take(i as int)),
            decreases size_class_state.locals@.len() - i,
        {
            let local: &LocalSizeClass = &size_class_state.locals[i];
            let len: usize = worker_len(&local.worker);
            proof {
                let before = view.locals.take(i as int);
                let after = view.locals.take(i + 1);
                assert(after.drop_last() =~= before);
                assert(after.last() == local@);
                lemma_wrapping_total(cached_len(before), thread_regions, len);
            }
            thread_regions = thread_regions.wrapping_add(len);
            totals = add_counts(totals, local.stats);
            i = i + 1;
        }
        let free_regions: usize = thread_regions.wrapping_add(global_regions).wrapping_add(clean_regions);
        proof {
            let threads = cached_len(view.locals);
            assert(view.locals.take(i as int) =~= view.locals);
            lemma_wrapping_total(threads, thread_regions, global_regions);
            lemma_wrapping_total(
                threads + view.global.len(),
                thread_regions.wrapping_add(global_regions),
                clean_regions,
            );
        }
        totals = add_counts(totals, size_class_state.alloc_stats);
        Self {
            areas,
            area_total_bytes,
            free_regions,
            clean_regions,
            global_regions,
            thread_regions,
            allocations: totals.allocations,
            slow_path: totals.slow_path,
            refill: totals.refill,
            deallocations: totals.deallocations,
            clear_eager_total: totals.clear_eager,
            clear_slow_total: totals.clear_slow,
        }
    }
}

/// The answer with the region for its handle.
pub open spec fn refill_view(refill: Refill) -> RefillView {
    match refill {
        Refill::Ready(handle) => RefillView::Ready(handle@),
        Refill::NeedArea(len) => RefillView::NeedArea(len),
        Refill::Again => RefillView::Again,
    }
}

} // verus!
