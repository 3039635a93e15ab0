//! What holds of the allocator as a whole.
use crate::advise::DANGLING;
use crate::allocation::{
    allocate_outcome, bytes_needed, class_answered, law_capacity_suffices, region_placed, Allocation, Shape, Step,
};
use crate::config::Settings;
use crate::error::AllocError;
use crate::ledger::{all_disjoint, balanced, carved, law_areas_can_be_counted, lemma_carved_len};
use crate::model::{
    area_bytes, batch_limit, cached, cached_len, empty_class, is_region, lemma_allocates, lemma_cleaned,
    lemma_recycled, lemma_sweep, lemma_takes, lemma_with_thread, lemma_without_thread, next_area_bytes,
    running_stats, AllocStats, ClassView, LocalView, RefillView, Region, INITIAL_SIZE,
};
use crate::pool::{
    cleared, clears_first, is_pool_region, pool_index, pool_with_thread, pool_without_thread, pools_wf,
    registered, swept_from,
};
use crate::queue::batch_moved;
use crate::size_class::{
    class_for, in_valid_range, law_class_is_unique, lemma_class_bytes, lemma_has_class, VALID_SIZE_CLASS,
};
use crate::stats::{class_stats, SizeClassStats};
use crate::class_state::{handle_views, Sweep};
use crate::background::{backlog_after, sweep_budget};
use vstd::arithmetic::power2::pow2;
use vstd::multiset::Multiset;
use vstd::prelude::*;

verus! {

/// Nothing is lost or gained when a thread comes or ends: neither a free region nor a count.
pub proof fn law_threads_leave_nothing_behind(pool: ClassView, thread_id: u64)
    requires
        pool.wf(),
    ensures
        pool_with_thread(pool, thread_id).wf(),
        pool_with_thread(pool, thread_id).has_thread(thread_id),
        pool_with_thread(pool, thread_id).free() == pool.free(),
        pool_with_thread(pool, thread_id).stats() == pool.stats(),
        pool_without_thread(pool, thread_id).wf(),
        !pool_without_thread(pool, thread_id).has_thread(thread_id),
        pool_without_thread(pool, thread_id).free() == pool.free(),
        pool_without_thread(pool, thread_id).stats() == pool.stats(),
{
    if pool.has_thread(thread_id) {
        let slot = pool.slot(thread_id);
        assert(pool.locals[slot].thread_id == thread_id);
        lemma_without_thread(pool, slot);
    } else {
        lemma_with_thread(pool, thread_id);
        let after = pool.with_thread(thread_id);
        assert(after.locals[pool.locals.len() as int].thread_id == thread_id);
    }
}

/// The caches hold as many regions as they hold in all.
pub proof fn lemma_cached_len(locals: Seq<LocalView>)
    ensures
        cached(locals).len() == cached_len(locals),
    decreases locals.len(),
{
    broadcast use {vstd::multiset::group_multiset_axioms, vstd::seq_lib::group_to_multiset_ensures};
    if locals.len() > 0 {
        lemma_cached_len(locals.drop_last());
    }
}

/// The statistics count the free regions and the bytes of the areas, as far as a machine word can
/// hold them.
pub proof fn law_statistics_count_memory(pool: ClassView)
    requires
        pool.wf(),
        pool.free().len() <= usize::MAX,
        area_bytes(pool.areas) <= usize::MAX,
    ensures
        class_stats(pool).area_total_bytes == area_bytes(pool.areas),
        class_stats(pool).free_regions == pool.free().len(),
        class_stats(pool).free_regions == class_stats(pool).global_regions + class_stats(pool).clean_regions
            + class_stats(pool).thread_regions,
{
    broadcast use {vstd::multiset::group_multiset_axioms, vstd::seq_lib::group_to_multiset_ensures};
    lemma_cached_len(pool.locals);
    let threads = cached_len(pool.locals);
    assert(pool.free().len() == pool.global.len() + pool.clean.len() + threads);
    vstd::arithmetic::div_mod::lemma_small_mod(area_bytes(pool.areas), usize::MAX as nat + 1);
    vstd::arithmetic::div_mod::lemma_small_mod(threads, usize::MAX as nat + 1);
    vstd::arithmetic::div_mod::lemma_small_mod(
        threads + pool.global.len() + pool.clean.len(),
        usize::MAX as nat + 1,
    );
}

/// An area is cut into whole regions, and has at least one more than the area before it. It grows
/// at least by an initial area where a region is not larger than that. Without a dampener it
/// doubles once it is as large as an initial area.
pub proof fn law_areas_grow(last: nat, class: nat, dampener: usize)
    requires
        in_valid_range(class as int),
    ensures
        ({
            let bytes = pow2(class);
            let next = next_area_bytes(last * bytes, bytes, dampener);
            &&& next % bytes == 0
            &&& next >= (last + 1) * bytes
            &&& bytes <= INITIAL_SIZE ==> next >= last * bytes + INITIAL_SIZE - INITIAL_SIZE as nat % bytes
            &&& dampener == 0 && last * bytes >= INITIAL_SIZE && last > 0 ==> next == 2 * (last * bytes)
            &&& next >= last * bytes + last / dampener.saturating_add(1) as nat * bytes
        }),
{
    let bytes = pow2(class);
    let next = next_area_bytes(last * bytes, bytes, dampener);
    let initial = INITIAL_SIZE as nat / bytes;
    let growth = last / dampener.saturating_add(1) as nat;
    lemma_class_bytes(class);
    assert(last * bytes / bytes == last) by {
        vstd::arithmetic::div_mod::lemma_div_by_multiple(last as int, bytes as int);
    }
    let floor: nat = if initial > 1 {
        initial
    } else {
        1
    };
    let step: nat = if growth > floor {
        growth
    } else {
        floor
    };
    assert(next == (last + step) * bytes);
    vstd::arithmetic::div_mod::lemma_mod_multiples_basic((last + step) as int, bytes as int);
    assert(initial * bytes == INITIAL_SIZE as nat - INITIAL_SIZE as nat % bytes) by {
        vstd::arithmetic::div_mod::lemma_fundamental_div_mod(INITIAL_SIZE as int, bytes as int);
        vstd::arithmetic::mul::lemma_mul_is_commutative(initial as int, bytes as int);
    }
    assert((last + step) * bytes == last * bytes + step * bytes) by (nonlinear_arith);
    assert(step * bytes >= bytes && step * bytes >= initial * bytes && step * bytes >= growth * bytes)
        by (nonlinear_arith)
        requires
            step >= 1,
            step >= initial,
            step >= growth,
            bytes > 0,
    ;
    assert((last + 1) * bytes == last * bytes + bytes) by (nonlinear_arith);
    if dampener == 0 && last * bytes >= INITIAL_SIZE && last > 0 {
        assert(initial <= last) by (nonlinear_arith)
            requires
                initial * bytes <= last * bytes,
                bytes > 0,
        ;
        assert(dampener.saturating_add(1) == 1);
        assert(last / 1nat == last);
        assert(step == last);
    }
}

/// What a thread gives back while its cache has room is what it gets next.
pub proof fn law_cache_is_last_in_first_out(
    pool: ClassView,
    after: ClassView,
    who: int,
    region: Region,
    next: Region,
    local_buffer_bytes: nat,
    eager: bool,
)
    requires
        0 <= who < pool.locals.len(),
        pool.cache_has_room(who, local_buffer_bytes),
        pool.recycled(who, region, local_buffer_bytes, eager).takes(
            after,
            who,
            next,
            batch_limit(local_buffer_bytes, pool.bytes()),
        ),
    ensures
        next == region,
        after.locals[who].items == pool.locals[who].items,
{
    let middle = pool.recycled(who, region, local_buffer_bytes, eager);
    assert(middle.locals[who].items =~= pool.locals[who].items.push(region));
    assert(pool.locals[who].items.push(region).drop_last() =~= pool.locals[who].items);
}

/// A thread's cache stays within the size that is set for it, whatever the thread does.
pub proof fn law_cache_stays_in_bounds(
    pool: ClassView,
    after: ClassView,
    who: int,
    region: Region,
    local_buffer_bytes: nat,
    eager: bool,
)
    requires
        pool.bytes() > 0,
        0 <= who < pool.locals.len(),
        pool.locals[who].items.len() <= local_buffer_bytes / pool.bytes(),
    ensures
        pool.recycled(who, region, local_buffer_bytes, eager).locals[who].items.len() <= local_buffer_bytes
            / pool.bytes(),
        pool.takes(after, who, region, batch_limit(local_buffer_bytes, pool.bytes()))
            ==> after.locals[who].items.len() <= local_buffer_bytes / pool.bytes(),
{
    let limit = batch_limit(local_buffer_bytes, pool.bytes());
    if pool.takes(after, who, region, limit) && pool.locals[who].items.len() == 0 {
        if pool.takes_global(after, who, region, limit) {
            let taken = choose|taken: nat|
                taken <= limit && #[trigger] batch_moved(
                    pool.global,
                    after.global,
                    pool.locals[who].items,
                    after.locals[who].items,
                    true,
                    1,
                    taken,
                );
            assert(after.locals[who].items.len() == taken - 1);
        } else if pool.takes_clean(after, who, region, limit) {
            let taken = choose|taken: nat|
                taken <= limit && #[trigger] batch_moved(
                    pool.clean,
                    after.clean,
                    pool.locals[who].items,
                    after.locals[who].items,
                    true,
                    1,
                    taken,
                );
            assert(after.locals[who].items.len() == taken - 1);
        }
    }
}

/// Releasing what was allocated brings the free regions back to what they were, whichever thread
/// releases it, and through clearing as well.
pub proof fn law_release_undoes_allocation(
    before: ClassView,
    middle: ClassView,
    who: int,
    releaser: int,
    region: Region,
    local_buffer_bytes: nat,
    dampener: usize,
    eager: bool,
)
    requires
        before.wf(),
        0 <= who < before.locals.len(),
        0 <= releaser < before.locals.len(),
        before.allocates(middle, who, RefillView::Ready(region), local_buffer_bytes, dampener),
    ensures
        ({
            let after = middle.recycled(releaser, region, local_buffer_bytes, eager);
            if eager && !middle.cache_has_room(releaser, local_buffer_bytes) {
                (ClassView { global: after.global.push(region), ..after }).free() == before.free()
            } else {
                after.free() == before.free()
            }
        }),
{
    broadcast use {vstd::multiset::group_multiset_axioms, vstd::seq_lib::group_to_multiset_ensures};
    lemma_allocates(before, middle, who, RefillView::Ready(region), local_buffer_bytes, dampener);
    lemma_recycled(middle, releaser, region, local_buffer_bytes, eager);
    let after = middle.recycled(releaser, region, local_buffer_bytes, eager);
    if eager && !middle.cache_has_room(releaser, local_buffer_bytes) {
        assert((ClassView { global: after.global.push(region), ..after }).free() =~= after.free().insert(region));
    }
}

/// A region that is taken for elements of a type is handed out as it is, or is free again.
pub proof fn law_region_is_placed_or_returned(
    shape: Shape,
    before: Seq<ClassView>,
    after: Seq<ClassView>,
    thread_id: u64,
    settings: Settings,
    region: Region,
    step: Step<Result<Allocation, AllocError>>,
)
    requires
        pools_wf(before),
        registered(before, thread_id),
        is_pool_region(region),
        region_placed(shape, before, after, thread_id, settings, region, step),
    ensures
        0 <= pool_index(region.1 as nat) < before.len(),
        match step {
            Step::Done(Ok((_, _, handle))) => after == before && handle@ == region,
            Step::Done(Err(_)) => after == before.update(
                pool_index(region.1 as nat),
                after[pool_index(region.1 as nat)],
            ) && after[pool_index(region.1 as nat)].free() == before[pool_index(
                region.1 as nat,
            )].free().insert(region) && after[pool_index(region.1 as nat)].areas == before[pool_index(
                region.1 as nat,
            )].areas,
            Step::Clear(handle, _) => handle@ == region && cleared(after, region) == before.update(
                pool_index(region.1 as nat),
                cleared(after, region)[pool_index(region.1 as nat)],
            ) && cleared(after, region)[pool_index(region.1 as nat)].free() == before[pool_index(
                region.1 as nat,
            )].free().insert(region) && cleared(after, region)[pool_index(region.1 as nat)].areas
                == before[pool_index(region.1 as nat)].areas,
            Step::NeedArea(_) | Step::Again => false,
        },
{
    broadcast use {vstd::multiset::group_multiset_axioms, vstd::seq_lib::group_to_multiset_ensures};
    let class = choose|class: nat| in_valid_range(class as int) && is_region(region, #[trigger] pow2(class));
    law_class_is_unique(class, 0);
    let index = pool_index(region.1 as nat);
    let pool = before[index];
    assert(pool.wf() && pool.exponent == class);
    assert(pool.has_thread(thread_id));
    let slot = pool.slot(thread_id);
    assert(0 <= slot < pool.locals.len() && pool.locals[slot].thread_id == thread_id);
    lemma_recycled(pool, slot, region, settings.local_buffer_bytes as nat, settings.eager_return);
    if region.0 as nat % shape.align != 0 {
        assert(after =~= before.update(index, after[index]));
        if clears_first(before, thread_id, region, settings) {
            let shared = cleared(after, region);
            assert(shared =~= before.update(index, shared[index]));
            assert(shared[index].free() =~= after[index].free().insert(region));
        }
    }
}

/// A request that is answered with memory takes one region from the pool of its class, and nothing
/// else. The region is aligned for the elements and has room for as many as were asked for.
pub proof fn law_allocation_takes_one_region(
    shape: Shape,
    before: Seq<ClassView>,
    after: Seq<ClassView>,
    thread_id: u64,
    settings: Settings,
    capacity: usize,
    page: usize,
    step: Step<Result<Allocation, AllocError>>,
)
    requires
        usize::BITS == 64,
        pools_wf(before),
        registered(before, thread_id),
        allocate_outcome(shape, before, after, thread_id, settings, capacity, page, step),
    ensures
        step matches Step::Done(Ok((addr, actual, handle))) ==> handle@.0 != DANGLING ==> {
            let index = pool_index(handle@.1 as nat);
            &&& settings.enabled
            &&& 0 <= index < before.len()
            &&& after == before.update(index, after[index])
            &&& before[index].free() == after[index].free().insert(handle@)
            &&& after[index].areas == before[index].areas
            &&& addr == handle@.0
            &&& addr as nat % shape.align == 0
            &&& actual >= capacity
            &&& actual * shape.size <= handle@.1
        },
{
    let size = shape.size;
    if let Step::Done(Ok((addr, actual, handle))) = step {
        if handle@.0 != DANGLING {
            let class = class_for(bytes_needed(size, capacity, page));
            let (pool, answer) = choose|pool: ClassView, answer: RefillView| #[trigger]
                class_answered(shape, before, after, thread_id, settings, class, pool, answer, step);
            assert(class_answered(shape, before, after, thread_id, settings, class, pool, answer, step));
            let index = class - VALID_SIZE_CLASS.start;
            assert(before[index].wf() && before[index].exponent == class);
            assert(before[index].has_thread(thread_id));
            let slot = before[index].slot(thread_id);
            assert(0 <= slot < before[index].locals.len() && before[index].locals[slot].thread_id == thread_id);
            lemma_allocates(
                before[index],
                pool,
                slot,
                answer,
                settings.local_buffer_bytes as nat,
                settings.growth_dampener,
            );
            assert(is_region(handle@, pow2(class)));
            law_class_is_unique(class, 0);
            lemma_has_class(bytes_needed(size, capacity, page));
            lemma_class_bytes(class);
            assert(size * capacity <= usize::MAX);
            law_capacity_suffices(size, capacity, page, handle@);
            assert(after =~= before.update(index, after[index]));
        }
    }
}

/// A request that is refused takes nothing: each pool has the areas and the free regions that it
/// had, where a region is to be cleared once that is done.
pub proof fn law_failed_allocation_takes_nothing(
    shape: Shape,
    before: Seq<ClassView>,
    after: Seq<ClassView>,
    thread_id: u64,
    settings: Settings,
    capacity: usize,
    page: usize,
    step: Step<Result<Allocation, AllocError>>,
    i: int,
)
    requires
        usize::BITS == 64,
        pools_wf(before),
        registered(before, thread_id),
        allocate_outcome(shape, before, after, thread_id, settings, capacity, page, step),
        0 <= i < before.len(),
    ensures
        match step {
            Step::Done(Ok(_)) => true,
            Step::Done(Err(_)) => after[i].free() == before[i].free() && after[i].areas == before[i].areas,
            Step::Clear(handle, _) => {
                &&& is_pool_region(handle@)
                &&& 0 <= pool_index(handle@.1 as nat) < before.len()
                &&& cleared(after, handle@)[i].free() == before[i].free()
                &&& cleared(after, handle@)[i].areas == before[i].areas
            },
            Step::NeedArea(_) => after[i].free() == before[i].free() && after[i].areas == before[i].areas,
            Step::Again => after == before,
        },
{
    let size = shape.size;
    let class = class_for(bytes_needed(size, capacity, page));
    if size > 0 && capacity > 0 && in_valid_range(class as int) && settings.enabled {
        let (pool, answer) = choose|pool: ClassView, answer: RefillView| #[trigger]
            class_answered(shape, before, after, thread_id, settings, class, pool, answer, step);
        assert(class_answered(shape, before, after, thread_id, settings, class, pool, answer, step));
        let index = class - VALID_SIZE_CLASS.start;
        assert(before[index].wf() && before[index].exponent == class);
        assert(before[index].has_thread(thread_id));
        let slot = before[index].slot(thread_id);
        assert(0 <= slot < before[index].locals.len() && before[index].locals[slot].thread_id == thread_id);
        lemma_allocates(
            before[index],
            pool,
            slot,
            answer,
            settings.local_buffer_bytes as nat,
            settings.growth_dampener,
        );
        let middle = before.update(index, pool);
        if let RefillView::Ready(region) = answer {
            assert(is_region(region, pow2(class)));
            law_class_is_unique(class, 0);
            assert forall|k: int| 0 <= k < middle.len() implies (#[trigger] middle[k]).wf() && middle[k].exponent
                == k + VALID_SIZE_CLASS.start && middle[k].has_thread(thread_id) by {
                assert(before[k].wf() && before[k].has_thread(thread_id));
                if k == index {
                    assert(pool.locals[slot].thread_id == thread_id);
                }
            }
            law_region_is_placed_or_returned(shape, middle, after, thread_id, settings, region, step);
        }
    }
}

/// While the allocator is disabled, every request is refused and changes nothing. The error tells that it
/// is disabled, unless no size class supports the request.
pub proof fn law_disabled_changes_nothing(
    shape: Shape,
    before: Seq<ClassView>,
    after: Seq<ClassView>,
    thread_id: u64,
    settings: Settings,
    capacity: usize,
    page: usize,
    step: Step<Result<Allocation, AllocError>>,
)
    requires
        !settings.enabled,
        allocate_outcome(shape, before, after, thread_id, settings, capacity, page, step),
    ensures
        after == before,
        step matches Step::Done(Err(e)) && if shape.size > 0 && capacity > 0 && !in_valid_range(
            class_for(bytes_needed(shape.size, capacity, page)) as int,
        ) {
            e is InvalidSizeClass
        } else {
            e is Disabled
        },
{
}

/// A tick moves the regions that it clears from the shared ones to those without contents, counts
/// them, and leaves as many free as there were.
pub proof fn law_tick_moves_backlog_to_clean(pool: ClassView, limit: nat, sweep: Sweep)
    requires
        pool.wf(),
        swept_from(pool, limit, sweep),
    ensures
        ({
            let taken = sweep.regions@.len();
            let after = pool.swept(taken).cleaned(handle_views(sweep.regions@));
            &&& sweep.complete ==> taken == if limit < pool.global.len() {
                limit
            } else {
                pool.global.len()
            }
            &&& after.global.len() == pool.global.len() - taken
            &&& after.clean.len() == pool.clean.len() + taken
            &&& after.retired.clear_slow == pool.retired.clear_slow.wrapping_add(taken as u64)
            &&& after.free() == pool.free()
        }),
{
    let taken = sweep.regions@.len();
    lemma_sweep(pool, taken);
    lemma_cleaned(pool.swept(taken), handle_views(sweep.regions@));
}

/// A complete tick that wants to clear half of a backlog leaves what the drain of a backlog says.
pub proof fn law_tick_drains_backlog(pool: ClassView, clear_bytes: nat, sweep: Sweep)
    requires
        swept_from(pool, sweep_budget(clear_bytes, pool.bytes(), pool.global.len() / 2), sweep),
        sweep.complete,
    ensures
        pool.swept(sweep.regions@.len()).global.len() == backlog_after(
            pool.global.len(),
            clear_bytes,
            pool.bytes(),
            1,
        ),
{
    reveal_with_fuel(backlog_after, 2);
}

/// There are no more refills than allocations on the slow path, and no more of those than
/// allocations.
pub open spec fn ordered(stats: AllocStats) -> bool {
    stats.refill <= stats.slow_path <= stats.allocations
}

/// The counters of each thread and those of the threads that have ended are in order.
pub open spec fn counts_ordered(pool: ClassView) -> bool {
    &&& ordered(pool.retired)
    &&& forall|i: int| 0 <= i < pool.locals.len() ==> ordered((#[trigger] pool.locals[i]).stats)
}

/// The allocations of the running threads.
pub open spec fn running_allocations(locals: Seq<LocalView>) -> nat
    decreases locals.len(),
{
    if locals.len() == 0 {
        0
    } else {
        running_allocations(locals.drop_last()) + locals.last().stats.allocations as nat
    }
}

/// The counters of a new pool are in order, and allocations keep them so, until a counter overflows.
pub proof fn law_counter_order_kept_by_allocation(
    before: ClassView,
    after: ClassView,
    who: int,
    refill: RefillView,
    local_buffer_bytes: nat,
    dampener: usize,
)
    requires
        before.wf(),
        0 <= who < before.locals.len(),
        before.allocates(after, who, refill, local_buffer_bytes, dampener),
        counts_ordered(before),
        before.locals[who].stats.allocations < u64::MAX,
    ensures
        counts_ordered(after),
        counts_ordered(empty_class(before.exponent)),
        after.locals[who].stats.allocations == before.locals[who].stats.allocations + if refill is Again {
            0int
        } else {
            1int
        },
        after.locals[who].stats.slow_path == before.locals[who].stats.slow_path + if before.exhausted() {
            1int
        } else {
            0int
        },
        after.locals[who].stats.refill == before.locals[who].stats.refill + if before.exhausted() {
            1int
        } else {
            0int
        },
{
    let stats = before.locals[who].stats;
    assert(ordered(stats));
    if let RefillView::Ready(region) = refill {
        let uncounted = after.with_stats(who, stats);
        lemma_takes(before, uncounted, who, region, batch_limit(local_buffer_bytes, before.bytes()));
        assert forall|i: int| 0 <= i < after.locals.len() implies ordered((#[trigger] after.locals[i]).stats) by {
            assert(ordered(before.locals[i].stats));
            assert(uncounted.locals[i].stats == before.locals[i].stats);
        }
    } else {
        assert forall|i: int| 0 <= i < after.locals.len() implies ordered((#[trigger] after.locals[i]).stats) by {
            assert(ordered(before.locals[i].stats));
        }
    }
}

/// A counter, with one more event where there was one. It starts over at zero when it overflows.
pub open spec fn counted(counter: u64, event: bool) -> u64 {
    if event {
        counter.wrapping_add(1)
    } else {
        counter
    }
}

/// An event that one thread counts is counted once by all together.
proof fn lemma_running_counted(before: Seq<LocalView>, after: Seq<LocalView>, who: int, fast: bool, slow: bool)
    requires
        after.len() == before.len(),
        0 <= who < before.len(),
        forall|i: int| 0 <= i < before.len() && i != who ==> (#[trigger] after[i]).stats == before[i].stats,
        after[who].stats.allocations == counted(before[who].stats.allocations, fast),
        after[who].stats.slow_path == counted(before[who].stats.slow_path, slow),
        after[who].stats.refill == counted(before[who].stats.refill, slow),
    ensures
        running_stats(after).allocations == counted(running_stats(before).allocations, fast),
        running_stats(after).slow_path == counted(running_stats(before).slow_path, slow),
        running_stats(after).refill == counted(running_stats(before).refill, slow),
    decreases before.len(),
{
    let last = before.len() - 1;
    if who == last {
        lemma_running_same(before.drop_last(), after.drop_last());
    } else {
        lemma_running_counted(before.drop_last(), after.drop_last(), who, fast, slow);
        assert(after[last].stats == before[last].stats);
    }
}

/// Threads with the same counters have the same ones together.
proof fn lemma_running_same(before: Seq<LocalView>, after: Seq<LocalView>)
    requires
        after.len() == before.len(),
        forall|i: int| 0 <= i < before.len() ==> (#[trigger] after[i]).stats == before[i].stats,
    ensures
        running_stats(after) == running_stats(before),
    decreases before.len(),
{
    if before.len() > 0 {
        lemma_running_same(before.drop_last(), after.drop_last());
        assert(after[before.len() - 1].stats == before[before.len() - 1].stats);
    }
}

/// The statistics count each request for a region once, unless it is to be repeated. While a region is
/// free, there is no allocation on the slow path, no refill and no new area; where none is, there is one
/// of each.
pub proof fn law_statistics_count_requests(
    before: ClassView,
    after: ClassView,
    who: int,
    refill: RefillView,
    local_buffer_bytes: nat,
    dampener: usize,
)
    requires
        before.wf(),
        0 <= who < before.locals.len(),
        before.allocates(after, who, refill, local_buffer_bytes, dampener),
    ensures
        class_stats(after).allocations == counted(class_stats(before).allocations, !(refill is Again)),
        class_stats(after).slow_path == counted(class_stats(before).slow_path, before.exhausted()),
        class_stats(after).refill == counted(class_stats(before).refill, before.exhausted()),
        after.areas == before.areas,
        refill is NeedArea <==> before.exhausted(),
{
    let stats = before.locals[who].stats;
    let uncounted = after.with_stats(who, stats);
    if let RefillView::Ready(region) = refill {
        lemma_takes(before, uncounted, who, region, batch_limit(local_buffer_bytes, before.bytes()));
        assert forall|i: int| 0 <= i < before.locals.len() && i != who implies (#[trigger] after.locals[i]).stats
            == before.locals[i].stats by {
            assert(uncounted.locals[i].stats == before.locals[i].stats);
        }
    }
    lemma_running_counted(before.locals, after.locals, who, !(refill is Again), before.exhausted());
}

/// Everything else that happens to a pool keeps its counters in order as well, until one overflows.
pub proof fn law_counter_order_kept_otherwise(
    pool: ClassView,
    who: int,
    region: Region,
    local_buffer_bytes: nat,
    eager: bool,
    newcomer: u64,
    area: Region,
    taken: nat,
    regions: Seq<Region>,
)
    requires
        0 <= who < pool.locals.len(),
        counts_ordered(pool),
        pool.retired.allocations + pool.locals[who].stats.allocations <= u64::MAX,
    ensures
        counts_ordered(pool.recycled(who, region, local_buffer_bytes, eager)),
        counts_ordered(pool.with_thread(newcomer)),
        counts_ordered(pool.without_thread(who)),
        counts_ordered(pool.refilled(area)),
        counts_ordered(pool.swept(taken)),
        counts_ordered(pool.cleaned(regions)),
{
    let recycled = pool.recycled(who, region, local_buffer_bytes, eager);
    assert(ordered(pool.locals[who].stats));
    assert forall|i: int| 0 <= i < recycled.locals.len() implies ordered((#[trigger] recycled.locals[i]).stats) by {
        assert(ordered(pool.locals[i].stats));
    }
    let joined = pool.with_thread(newcomer);
    assert forall|i: int| 0 <= i < joined.locals.len() implies ordered((#[trigger] joined.locals[i]).stats) by {
        if i < pool.locals.len() {
            assert(ordered(pool.locals[i].stats));
        }
    }
    let left = pool.without_thread(who);
    assert forall|i: int| 0 <= i < left.locals.len() implies ordered((#[trigger] left.locals[i]).stats) by {
        assert(left.locals[i] == if i < who {
            pool.locals[i]
        } else {
            pool.locals[i + 1]
        });
    }
}

/// The sum of the threads' counters, as long as none overflows.
proof fn lemma_running_ordered(locals: Seq<LocalView>)
    requires
        forall|i: int| 0 <= i < locals.len() ==> ordered((#[trigger] locals[i]).stats),
        running_allocations(locals) <= u64::MAX,
    ensures
        ordered(running_stats(locals)),
        running_stats(locals).allocations == running_allocations(locals),
    decreases locals.len(),
{
    if locals.len() > 0 {
        let rest = locals.drop_last();
        assert forall|i: int| 0 <= i < rest.len() implies ordered((#[trigger] rest[i]).stats) by {
            assert(ordered(locals[i].stats));
        }
        lemma_running_ordered(rest);
        assert(ordered(locals[locals.len() - 1].stats));
    }
}

/// The statistics show no more refills than allocations on the slow path, and no more of those than
/// allocations, as long as these can be counted.
pub proof fn law_statistics_are_ordered(pool: ClassView)
    requires
        counts_ordered(pool),
        running_allocations(pool.locals) + pool.retired.allocations <= u64::MAX,
    ensures
        class_stats(pool).refill <= class_stats(pool).slow_path <= class_stats(pool).allocations,
        class_stats(pool).allocations == running_allocations(pool.locals) + pool.retired.allocations,
{
    lemma_running_ordered(pool.locals);
}

/// The regions of a class that are in use, as the statistics show them: those of its areas that are
/// not free.
pub open spec fn in_use(stats: SizeClassStats, bytes: nat) -> int {
    stats.area_total_bytes as nat / bytes - stats.free_regions
}

/// What the statistics show as in use is what is out, where the areas have no byte in common.
pub proof fn law_statistics_show_what_is_out(pool: ClassView, out: Multiset<Region>)
    requires
        usize::BITS == 64,
        pool.wf(),
        all_disjoint(pool.areas),
        balanced(pool, out),
    ensures
        in_use(class_stats(pool), pool.bytes()) == out.len(),
        class_stats(pool).area_total_bytes == area_bytes(pool.areas),
        class_stats(pool).free_regions == pool.free().len(),
{
    broadcast use vstd::multiset::group_multiset_axioms;
    let bytes = pool.bytes();
    let all = carved(pool.areas, bytes).len();
    lemma_class_bytes(pool.exponent);
    law_areas_can_be_counted(pool);
    lemma_carved_len(pool.areas, bytes);
    assert(pool.free().add(out).len() == pool.free().len() + out.len());
    assert(all <= all * bytes) by (nonlinear_arith)
        requires
            bytes > 0,
    ;
    law_statistics_count_memory(pool);
    vstd::arithmetic::div_mod::lemma_div_by_multiple(all as int, bytes as int);
}

} // verus!
