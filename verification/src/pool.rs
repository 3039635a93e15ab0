//! The pools of all size classes, and the threads that use them.
use crate::advise::DANGLING;
use crate::background::{sweep_budget, sweep_limit};
use crate::class_state::{handle_views, refill_view, Refill, SizeClassState, Sweep};
use crate::config::Settings;
use crate::error::AllocError;
use crate::handle::Handle;
use crate::model::{
    all_regions, empty_class, is_area, is_region, lemma_allocates, regions_of, same_threads, ClassView,
    Region,
};
use crate::queue::move_asks_again;
use crate::size_class::{
    class_for, in_valid_range, law_class_is_unique, SizeClass, SIZE_CLASS_COUNT, VALID_SIZE_CLASS,
};
use crate::stats::{class_stats, SizeClassStats, Stats};
use vstd::arithmetic::power2::pow2;
use vstd::prelude::*;

verus! {

/// Type maintaining the global state for each size class.
pub struct GlobalStealer {
    /// State for each size class, the smallest class first.
    size_classes: Vec<SizeClassState>,
}

impl View for GlobalStealer {
    type V = Seq<ClassView>;

    closed spec fn view(&self) -> Seq<ClassView> {
        self.size_classes@.map_values(|state: SizeClassState| state@)
    }
}

/// There is one pool for each valid size class, and each is in order.
pub open spec fn pools_wf(pools: Seq<ClassView>) -> bool {
    &&& pools.len() == SIZE_CLASS_COUNT
    &&& forall|i: int|
        0 <= i < pools.len() ==> (#[trigger] pools[i]).wf() && pools[i].exponent == i + VALID_SIZE_CLASS.start
}

/// Position of the pool for regions of the given size.
pub open spec fn pool_index(bytes: nat) -> int {
    class_for(bytes) - VALID_SIZE_CLASS.start
}

/// The thread has a cache in each pool.
pub open spec fn registered(pools: Seq<ClassView>, thread_id: u64) -> bool {
    forall|i: int| 0 <= i < pools.len() ==> (#[trigger] pools[i]).has_thread(thread_id)
}

/// `region` is memory of the size of a valid class.
pub open spec fn is_pool_region(region: Region) -> bool {
    exists|class: nat| in_valid_range(class as int) && is_region(region, #[trigger] pow2(class))
}

/// The pool of the region's class after a thread gave the region back.
pub open spec fn returned(
    pools: Seq<ClassView>,
    thread_id: u64,
    region: Region,
    settings: Settings,
) -> Seq<ClassView> {
    let index = pool_index(region.1 as nat);
    let pool = pools[index];
    pools.update(
        index,
        pool.recycled(
            pool.slot(thread_id),
            region,
            settings.local_buffer_bytes as nat,
            settings.eager_return,
        ),
    )
}

/// The region has to be cleared on its way back.
pub open spec fn clears_first(pools: Seq<ClassView>, thread_id: u64, region: Region, settings: Settings) -> bool {
    let pool = pools[pool_index(region.1 as nat)];
    settings.eager_return && !pool.cache_has_room(pool.slot(thread_id), settings.local_buffer_bytes as nat)
}

/// The pool of the region's class once a region that had to be cleared is shared.
pub open spec fn cleared(pools: Seq<ClassView>, region: Region) -> Seq<ClassView> {
    let index = pool_index(region.1 as nat);
    pools.update(index, ClassView { global: pools[index].global.push(region), ..pools[index] })
}

/// A memory region is what a class is for.
proof fn lemma_pool_region(region: Region)
    requires
        is_pool_region(region),
    ensures
        in_valid_range(class_for(region.1 as nat) as int),
        is_region(region, pow2(class_for(region.1 as nat))),
{
    let class = choose|class: nat| in_valid_range(class as int) && is_region(region, #[trigger] pow2(class));
    law_class_is_unique(class, 0);
}

impl GlobalStealer {
    /// Each pool is in order.
    pub closed spec fn wf(self) -> bool {
        &&& usize::BITS == 64
        &&& pools_wf(self@)
        &&& forall|i: int| 0 <= i < self.size_classes@.len() ==> (#[trigger] self.size_classes@[i]).wf()
    }

    /// What is seen of a state in order.
    pub proof fn lemma_wf(self)
        requires
            self.wf(),
        ensures
            usize::BITS == 64,
            pools_wf(self@),
    {
    }

    /// Pools without memory, on a machine with 64-bit words.
    pub fn new() -> (global: Self)
        requires
            usize::BITS == 64,
        ensures
            global.wf(),
            global@ == Seq::new(
                SIZE_CLASS_COUNT as nat,
                |i: int| empty_class((i + VALID_SIZE_CLASS.start) as nat),
            ),
    {
        let mut size_classes: Vec<SizeClassState> = Vec::with_capacity(SIZE_CLASS_COUNT);
        let mut index: usize = 0;
        while index < SIZE_CLASS_COUNT
            invariant
                usize::BITS == 64,
                index <= SIZE_CLASS_COUNT,
                size_classes@.len() == index,
                forall|i: int|
                    0 <= i < index ==> (#[trigger] size_classes@[i]).wf() && size_classes@[i]@ == empty_class(
                        (i + VALID_SIZE_CLASS.start) as nat,
                    ),
            decreases SIZE_CLASS_COUNT - index,
        {
            size_classes.push(SizeClassState::new(SizeClass::from_index(index)));
            index = index + 1;
        }
        let global = Self { size_classes };
        proof {
            assert(global@ =~= Seq::new(
                SIZE_CLASS_COUNT as nat,
                |i: int| empty_class((i + VALID_SIZE_CLASS.start) as nat),
            ));
            assert forall|i: int| 0 <= i < global@.len() implies (#[trigger] global@[i]).wf() by {
                assert(global.size_classes@[i].wf());
                global.size_classes@[i].lemma_wf();
            }
        }
        global
    }

    /// The pool of a size class.
    pub fn get_size_class(&self, size_class: SizeClass) -> (state: &SizeClassState)
        requires
            self.wf(),
            size_class.valid(),
        ensures
            state.wf(),
            state@ == self@[size_class.exponent() - VALID_SIZE_CLASS.start],
    {
        &self.size_classes[size_class.index()]
    }

    /// Refill the pool of a class with the area that was mapped for it, and get its first region.
    ///
    /// Returns an error if the area could not be mapped.
    pub fn complete_refill(
        &mut self,
        size_class: SizeClass,
        len: usize,
        mapped: Result<usize, std::io::Error>,
    ) -> (region: Result<Handle, AllocError>)
        requires
            old(self).wf(),
            size_class.valid(),
            mapped matches Ok(addr) ==> is_area((addr, len), size_class.bytes()),
        ensures
            final(self).wf(),
            match mapped {
                Ok(addr) => {
                    let index = size_class.exponent() - VALID_SIZE_CLASS.start;
                    &&& final(self)@ == old(self)@.update(index, old(self)@[index].refilled((addr, len)))
                    &&& region matches Ok(handle) && handle@ == regions_of((addr, len), size_class.bytes())[0]
                },
                Err(e) => {
                    &&& final(self)@ == old(self)@
                    &&& region == Err::<Handle, AllocError>(AllocError::Io(e))
                },
            },
    {
        let index: usize = size_class.index();
        let ghost before = *self;
        assert(self@[index as int].exponent == size_class.exponent());
        let region: Result<Handle, AllocError> = self.size_classes[index].complete_refill(len, mapped);
        proof {
            self.lemma_one_changed(before, index as int);
            assert(self@[index as int] == before@[index as int] ==> self@ =~= before@);
        }
        region
    }

    /// Hand a region to the global state after it was cleared.
    pub fn return_cleared(&mut self, mem: Handle)
        requires
            old(self).wf(),
            is_pool_region(mem@),
        ensures
            final(self).wf(),
            final(self)@ == cleared(old(self)@, mem@),
    {
        proof {
            lemma_pool_region(mem@);
        }
        let size_class: SizeClass = SizeClass::from_byte_size_unchecked(mem.len());
        proof {
            law_class_is_unique(size_class.exponent(), mem@.1 as nat);
        }
        let index: usize = size_class.index();
        let ghost before = *self;
        assert(self@[index as int].exponent == size_class.exponent());
        self.size_classes[index].return_cleared(mem);
        proof {
            self.lemma_one_changed(before, index as int);
        }
    }

    /// Number of regions of a class in the global state that have not been cleared.
    pub fn backlog(&self, size_class: SizeClass) -> (len: usize)
        requires
            self.wf(),
            size_class.valid(),
        ensures
            len == self@[size_class.exponent() - VALID_SIZE_CLASS.start].global.len(),
    {
        self.get_size_class(size_class).backlog()
    }

    /// Begin a tick of the background worker for a size class: take the regions that are to be
    /// cleared with [`Handle::clear`] and handed to [`Self::finish_sweep`]. `want` is the decayed
    /// backlog. [`Self::resume_sweep`] goes on with the [`Sweep::rest`], if there is one.
    pub fn begin_sweep(&mut self, size_class: SizeClass, clear_bytes: usize, want: usize) -> (sweep: Sweep)
        requires
            old(self).wf(),
            size_class.valid(),
        ensures
            final(self).wf(),
            ({
                let index = size_class.exponent() - VALID_SIZE_CLASS.start;
                let budget = sweep_budget(clear_bytes as nat, size_class.bytes(), want as nat);
                swept_from(old(self)@[index], budget, sweep) && final(self)@ == old(self)@.update(
                    index,
                    old(self)@[index].swept(sweep.regions@.len()),
                )
            }),
    {
        proof {
            self.lemma_wf();
        }
        let limit: usize = sweep_limit(clear_bytes, size_class.byte_size(), want);
        self.resume_sweep(size_class, limit)
    }

    /// Go on with a tick that could not take all regions that it may: take up to `left` more of them.
    /// See [`Self::begin_sweep`].
    pub fn resume_sweep(&mut self, size_class: SizeClass, left: usize) -> (sweep: Sweep)
        requires
            old(self).wf(),
            size_class.valid(),
        ensures
            final(self).wf(),
            ({
                let index = size_class.exponent() - VALID_SIZE_CLASS.start;
                swept_from(old(self)@[index], left as nat, sweep) && final(self)@ == old(self)@.update(
                    index,
                    old(self)@[index].swept(sweep.regions@.len()),
                )
            }),
    {
        proof {
            self.lemma_wf();
        }
        let index: usize = size_class.index();
        let ghost before = *self;
        let sweep: Sweep = self.size_classes[index].take_backlog(left);
        proof {
            assert(before@[index as int].wf() && before@[index as int].exponent == size_class.exponent());
            self.lemma_one_changed(before, index as int);
        }
        sweep
    }

    /// End a tick of the background worker for a size class: the regions are clean.
    pub fn finish_sweep(&mut self, size_class: SizeClass, regions: Vec<Handle>)
        requires
            old(self).wf(),
            size_class.valid(),
            all_regions(handle_views(regions@), size_class.bytes()),
        ensures
            final(self).wf(),
            ({
                let index = size_class.exponent() - VALID_SIZE_CLASS.start;
                final(self)@ == old(self)@.update(
                    index,
                    old(self)@[index].cleaned(handle_views(regions@)),
                )
            }),
    {
        let index: usize = size_class.index();
        let ghost before = *self;
        assert(self@[index as int].exponent == size_class.exponent());
        self.size_classes[index].finish_sweep(regions);
        proof {
            self.lemma_one_changed(before, index as int);
        }
    }

    /// Give up all pools: the areas that are to be unmapped.
    pub fn into_areas(self) -> (areas: Vec<(usize, usize)>)
        requires
            self.wf(),
        ensures
            areas@ == areas_of(self@),
    {
        let mut areas: Vec<(usize, usize)> = Vec::new();
        let mut index: usize = 0;
        assert(self@.take(0) =~= Seq::empty());
        while index < self.size_classes.len()
            invariant
                self.wf(),
                index <= self@.len(),
                self@.len() == self.size_classes@.len(),
                areas@ == areas_of(self@.take(index as int)),
            decreases self@.len() - index,
        {
            self.size_classes[index].append_areas(&mut areas);
            proof {
                let next = self@.take(index + 1);
                assert(next.drop_last() =~= self@.take(index as int));
            }
            index = index + 1;
        }
        assert(self@.take(index as int) =~= self@);
        areas
    }

    /// Set up a thread's caches, one per size class.
    fn register(&mut self, thread_id: u64)
        requires
            old(self).wf(),
        ensures
            final(self).wf(),
            final(self)@ == old(self)@.map_values(|pool: ClassView| pool_with_thread(pool, thread_id)),
    {
        let mut index: usize = 0;
        while index < self.size_classes.len()
            invariant
                self.wf(),
                index <= self@.len(),
                self@.len() == old(self)@.len(),
                forall|i: int|
                    0 <= i < self@.len() ==> #[trigger] self@[i] == if i < index {
                        pool_with_thread(old(self)@[i], thread_id)
                    } else {
                        old(self)@[i]
                    },
            decreases self@.len() - index,
        {
            let ghost before = *self;
            self.size_classes[index].register(thread_id);
            proof {
                let pool = before@[index as int];
                assert(pool == before.size_classes@[index as int]@);
                assert(pool == old(self)@[index as int]);
                self.lemma_one_changed(before, index as int);
            }
            index = index + 1;
        }
    }

    /// Remove a thread's caches.
    fn unregister(&mut self, thread_id: u64)
        requires
            old(self).wf(),
        ensures
            final(self).wf(),
            final(self)@ == old(self)@.map_values(|pool: ClassView| pool_without_thread(pool, thread_id)),
    {
        let mut index: usize = 0;
        while index < self.size_classes.len()
            invariant
                self.wf(),
                index <= self@.len(),
                self@.len() == old(self)@.len(),
                forall|i: int|
                    0 <= i < self@.len() ==> #[trigger] self@[i] == if i < index {
                        pool_without_thread(old(self)@[i], thread_id)
                    } else {
                        old(self)@[i]
                    },
            decreases self@.len() - index,
        {
            let ghost before = *self;
            self.size_classes[index].unregister(thread_id);
            proof {
                let pool = before@[index as int];
                if pool.has_thread(thread_id) {
                    let slot = pool.slot(thread_id);
                    assert(pool.locals[slot].thread_id == thread_id);
                }
                self.lemma_one_changed(before, index as int);
            }
            index = index + 1;
        }
    }

    /// A step in one pool.
    proof fn lemma_one_changed(self, before: GlobalStealer, index: int)
        requires
            before.wf(),
            0 <= index < before.size_classes@.len(),
            self.size_classes@ == before.size_classes@.update(index, self.size_classes@[index]),
            self.size_classes@[index].wf(),
            self.size_classes@[index]@.exponent == before.size_classes@[index]@.exponent,
        ensures
            self.wf(),
            self@ == before@.update(index, self.size_classes@[index]@),
    {
        self.size_classes@[index].lemma_wf();
        assert(self@ =~= before@.update(index, self.size_classes@[index]@));
        assert forall|i: int| 0 <= i < self.size_classes@.len() implies (#[trigger] self.size_classes@[i]).wf() by {
            assert(before.size_classes@[i].wf());
        }
        assert forall|i: int| 0 <= i < self@.len() implies (#[trigger] self@[i]).wf() && self@[i].exponent == i
            + VALID_SIZE_CLASS.start by {
            assert(before@[i].wf());
        }
    }
}

/// A tick that may take `limit` regions took the oldest shared ones, no more than it may: exactly as
/// many as it may or as there are, where the sweep is complete, and fewer than both where not. Then the queue
/// asks for another attempt to take the rest.
pub open spec fn swept_from(pool: ClassView, limit: nat, sweep: Sweep) -> bool {
    let taken = sweep.regions@.len();
    &&& taken <= limit
    &&& taken <= pool.global.len()
    &&& handle_views(sweep.regions@) == pool.global.subrange(0, taken as int)
    &&& all_regions(handle_views(sweep.regions@), pool.bytes())
    &&& sweep.complete <==> taken == limit || taken == pool.global.len()
    &&& sweep.left == limit - taken
    &&& !sweep.complete ==> move_asks_again(
        pool.global.subrange(taken as int, pool.global.len() as int),
        sweep.left as nat,
    )
}

/// The areas of all pools, the smallest class first.
pub open spec fn areas_of(pools: Seq<ClassView>) -> Seq<Region>
    decreases pools.len(),
{
    if pools.len() == 0 {
        Seq::empty()
    } else {
        areas_of(pools.drop_last()) + pools.last().areas
    }
}

/// Determine global statistics per size class.
pub fn stats(global: &GlobalStealer) -> (stats: Stats)
    requires
        global.wf(),
    ensures
        stats.size_class@.len() == SIZE_CLASS_COUNT,
        forall|i: int|
            0 <= i < SIZE_CLASS_COUNT ==> (#[trigger] stats.size_class@[i]).0 == global@[i].bytes()
                && stats.size_class@[i].1 == class_stats(global@[i]),
{
    let mut size_class_stats: Vec<(usize, SizeClassStats)> = Vec::with_capacity(SIZE_CLASS_COUNT);
    let mut index: usize = 0;
    proof {
        global.lemma_wf();
    }
    while index < SIZE_CLASS_COUNT
        invariant
            global.wf(),
            pools_wf(global@),
            usize::BITS == 64,
            index <= SIZE_CLASS_COUNT,
            size_class_stats@.len() == index,
            forall|i: int|
                0 <= i < index ==> (#[trigger] size_class_stats@[i]).0 == global@[i].bytes()
                    && size_class_stats@[i].1 == class_stats(global@[i]),
        decreases SIZE_CLASS_COUNT - index,
    {
        let size_class: SizeClass = SizeClass::from_index(index);
        let size_class_bytes: usize = size_class.byte_size();
        assert(global@[index as int].exponent == size_class.exponent());
        size_class_stats.push((size_class_bytes, SizeClassStats::from(global.get_size_class(size_class))));
        index = index + 1;
    }
    Stats { size_class: size_class_stats }
}

/// The pool with a cache of the thread.
pub open spec fn pool_with_thread(pool: ClassView, thread_id: u64) -> ClassView {
    if pool.has_thread(thread_id) {
        pool
    } else {
        pool.with_thread(thread_id)
    }
}

/// The pool without a cache of the thread.
pub open spec fn pool_without_thread(pool: ClassView, thread_id: u64) -> ClassView {
    if pool.has_thread(thread_id) {
        pool.without_thread(pool.slot(thread_id))
    } else {
        pool
    }
}

/// Per-thread state: names the thread's caches in the pools.
pub struct ThreadLocalStealer {
    thread_id: u64,
}

impl View for ThreadLocalStealer {
    type V = u64;

    /// The thread.
    closed spec fn view(&self) -> u64 {
        self.thread_id
    }
}

impl ThreadLocalStealer {
    /// Set up a thread. Each thread has a number of its own.
    pub fn new(global: &mut GlobalStealer, thread_id: u64) -> (thread: Self)
        requires
            old(global).wf(),
        ensures
            final(global).wf(),
            thread@ == thread_id,
            final(global)@ == old(global)@.map_values(|pool: ClassView| pool_with_thread(pool, thread_id)),
            registered(final(global)@, thread@),
    {
        global.register(thread_id);
        proof {
            assert forall|i: int| 0 <= i < global@.len() implies (#[trigger] global@[i]).has_thread(thread_id) by {
                let pool = old(global)@[i];
                if !pool.has_thread(thread_id) {
                    assert(global@[i].locals[pool.locals.len() as int].thread_id == thread_id);
                }
            }
        }
        Self { thread_id }
    }

    /// End a thread: sends its memory back to the global state, and moves its metrics there.
    pub fn retire(self, global: &mut GlobalStealer)
        requires
            old(global).wf(),
        ensures
            final(global).wf(),
            final(global)@ == old(global)@.map_values(|pool: ClassView| pool_without_thread(pool, self@)),
    {
        global.unregister(self.thread_id);
    }

    /// Allocate a memory region from a specific size class, or ask for an area to be mapped where
    /// the pool is empty.
    ///
    /// Returns [`AllocError::Disabled`] if the allocator is not enabled.
    pub fn allocate(&self, global: &mut GlobalStealer, settings: Settings, size_class: SizeClass) -> (refill: Result<
        Refill,
        AllocError,
    >)
        requires
            old(global).wf(),
            registered(old(global)@, self@),
            size_class.valid(),
        ensures
            final(global).wf(),
            registered(final(global)@, self@),
            !settings.enabled ==> refill == Err::<Refill, AllocError>(AllocError::Disabled) && final(global)@
                == old(global)@,
            settings.enabled ==> {
                let index = size_class.exponent() - VALID_SIZE_CLASS.start;
                &&& refill matches Ok(answer) && old(global)@[index].allocates(
                    final(global)@[index],
                    old(global)@[index].slot(self@),
                    refill_view(answer),
                    settings.local_buffer_bytes as nat,
                    settings.growth_dampener,
                )
                &&& final(global)@ == old(global)@.update(index, final(global)@[index])
            },
    {
        if !settings.enabled {
            return Err(AllocError::Disabled);
        }
        let index: usize = size_class.index();
        let ghost before = *global;
        let ghost pool = global@[index as int];
        assert(pool.has_thread(self.thread_id));
        let who: usize = global.size_classes[index].position(self.thread_id).unwrap();
        proof {
            lemma_slot(pool, self.thread_id, who as int);
        }
        let refill: Refill = global.size_classes[index].get_with_refill(
            who,
            settings.local_buffer_bytes,
            settings.growth_dampener,
        );
        proof {
            lemma_allocates(
                pool,
                global.size_classes@[index as int]@,
                who as int,
                refill_view(refill),
                settings.local_buffer_bytes as nat,
                settings.growth_dampener,
            );
            global.lemma_one_changed(before, index as int);
            lemma_still_registered(before@, global@, self@);
        }
        Ok(refill)
    }

    /// Return memory to the allocator. Where it has to be cleared first, it comes back, to be
    /// cleared with [`Handle::fast_clear`] and handed to [`GlobalStealer::return_cleared`].
    pub fn deallocate(&self, global: &mut GlobalStealer, settings: Settings, mem: Handle) -> (to_clear: Option<Handle>)
        requires
            old(global).wf(),
            registered(old(global)@, self@),
            is_pool_region(mem@),
        ensures
            final(global).wf(),
            registered(final(global)@, self@),
            final(global)@ == returned(old(global)@, self@, mem@, settings),
            to_clear is Some <==> clears_first(old(global)@, self@, mem@, settings),
            to_clear matches Some(handle) ==> handle@ == mem@,
    {
        proof {
            lemma_pool_region(mem@);
        }
        let size_class: SizeClass = SizeClass::from_byte_size_unchecked(mem.len());
        proof {
            law_class_is_unique(size_class.exponent(), mem@.1 as nat);
        }
        let index: usize = size_class.index();
        let ghost before = *global;
        let ghost pool = global@[index as int];
        assert(pool.has_thread(self.thread_id));
        let who: usize = global.size_classes[index].position(self.thread_id).unwrap();
        proof {
            lemma_slot(pool, self.thread_id, who as int);
        }
        let to_clear: Option<Handle> = global.size_classes[index].push(
            who,
            mem,
            settings.local_buffer_bytes,
            settings.eager_return,
        );
        proof {
            global.lemma_one_changed(before, index as int);
            lemma_still_registered(before@, global@, self@);
        }
        to_clear
    }

    /// Let go of a handle: return its memory to the allocator as [`Self::deallocate`] does, unless
    /// it owns none.
    pub fn release(&self, global: &mut GlobalStealer, settings: Settings, mem: Handle) -> (to_clear: Option<Handle>)
        requires
            old(global).wf(),
            registered(old(global)@, self@),
            mem@.0 == DANGLING || is_pool_region(mem@),
        ensures
            final(global).wf(),
            registered(final(global)@, self@),
            mem@.0 == DANGLING ==> to_clear is None && final(global)@ == old(global)@,
            mem@.0 != DANGLING ==> {
                &&& final(global)@ == returned(old(global)@, self@, mem@, settings)
                &&& to_clear is Some <==> clears_first(old(global)@, self@, mem@, settings)
                &&& to_clear matches Some(handle) ==> handle@ == mem@
            },
    {
        if mem.is_dangling() {
            None
        } else {
            self.deallocate(global, settings, mem)
        }
    }
}

/// A thread has one cache alone.
pub proof fn lemma_slot(pool: ClassView, thread_id: u64, who: int)
    requires
        pool.wf(),
        0 <= who < pool.locals.len(),
        pool.locals[who].thread_id == thread_id,
    ensures
        who == pool.slot(thread_id),
{
    let slot = pool.slot(thread_id);
    assert(0 <= slot < pool.locals.len() && pool.locals[slot].thread_id == thread_id);
}

/// The threads of the pools stay the same.
proof fn lemma_still_registered(before: Seq<ClassView>, after: Seq<ClassView>, thread_id: u64)
    requires
        registered(before, thread_id),
        before.len() == after.len(),
        forall|i: int| 0 <= i < before.len() ==> same_threads(before[i], #[trigger] after[i]),
    ensures
        registered(after, thread_id),
{
    assert forall|i: int| 0 <= i < after.len() implies (#[trigger] after[i]).has_thread(thread_id) by {
        assert(same_threads(before[i], after[i]));
        assert(before[i].has_thread(thread_id));
        let slot = before[i].slot(thread_id);
        assert(after[i].locals[slot].thread_id == thread_id);
    }
}

} // verus!
