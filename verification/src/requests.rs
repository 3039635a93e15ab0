//! What requests, releases and ticks do, told by what is seen of the pools before and after.
use crate::allocation::{
    allocate_outcome, bytes_needed, class_answered, region_placed, shape_of, step_suffices, step_wf, Allocation,
    Shape, Step,
};
use crate::background::{law_budget_is_least, sweep_budget};
use crate::class_state::{handle_views, refill_view, Refill, Sweep};
use crate::config::Settings;
use crate::error::AllocError;
use crate::laws::lemma_cached_len;
use crate::model::{
    area_bytes, batch_limit, cached, cached_len, empty_class, is_area, is_region, lemma_allocates,
    lemma_position_in_area, lemma_regions_of, next_area_bytes, regions_of, ClassView, LocalView, RefillView,
    Region, INITIAL_SIZE,
};
use crate::pool::{
    areas_of, cleared, clears_first, is_pool_region, lemma_slot, pool_index, pool_with_thread,
    pool_without_thread, pools_wf, registered, returned, swept_from,
};
use crate::queue::{batch_answer, batch_moved, move_asks_again, Steal};
use crate::size_class::{
    class_for, in_valid_range, is_class_of, law_class_is_of_the_least_power, law_class_is_unique,
    law_sizes_served, lemma_class_bytes, VALID_SIZE_CLASS,
};
use crate::stats::class_stats;
use vstd::arithmetic::power2::{lemma2_to64, lemma2_to64_rest, lemma_pow2_unfold, pow2};
use vstd::prelude::*;

verus! {

/// The caches hold a region where one of them does.
proof fn lemma_cached_somewhere(locals: Seq<LocalView>, region: Region)
    ensures
        cached(locals).count(region) > 0 <==> exists|i: int|
            0 <= i < locals.len() && (#[trigger] locals[i]).items.contains(region),
    decreases locals.len(),
{
    broadcast use {vstd::multiset::group_multiset_axioms, vstd::seq_lib::group_to_multiset_ensures};
    if locals.len() > 0 {
        let rest = locals.drop_last();
        let last = locals.len() - 1;
        lemma_cached_somewhere(rest, region);
        assert(cached(locals).count(region) == cached(rest).count(region) + locals[last].items.to_multiset().count(
            region,
        ));
        if cached(rest).count(region) > 0 {
            let i = choose|i: int| 0 <= i < rest.len() && (#[trigger] rest[i]).items.contains(region);
            assert(locals[i].items.contains(region));
        }
        if exists|i: int| 0 <= i < locals.len() && (#[trigger] locals[i]).items.contains(region) {
            let i = choose|i: int| 0 <= i < locals.len() && (#[trigger] locals[i]).items.contains(region);
            if i < last {
                assert(rest[i].items.contains(region));
            }
        }
    }
}

/// No cache holds anything where all of them together hold nothing.
proof fn lemma_nothing_cached(locals: Seq<LocalView>)
    ensures
        cached_len(locals) == 0 <==> forall|i: int|
            0 <= i < locals.len() ==> (#[trigger] locals[i]).items.len() == 0,
    decreases locals.len(),
{
    if locals.len() > 0 {
        let rest = locals.drop_last();
        let last = locals.len() - 1;
        lemma_nothing_cached(rest);
        if cached_len(locals) == 0 {
            assert forall|i: int| 0 <= i < locals.len() implies (#[trigger] locals[i]).items.len() == 0 by {
                if i < last {
                    assert(rest[i].items.len() == 0);
                }
            }
        }
        if forall|i: int| 0 <= i < locals.len() ==> (#[trigger] locals[i]).items.len() == 0 {
            assert forall|i: int| 0 <= i < rest.len() implies (#[trigger] rest[i]).items.len() == 0 by {
                assert(locals[i].items.len() == 0);
            }
            assert(locals[last].items.len() == 0);
        }
    }
}

/// A region is free where one of the shared queues or a cache holds it. A pool is exhausted where none of
/// them holds any.
pub proof fn law_free_is_what_the_queues_hold(pool: ClassView, region: Region)
    ensures
        pool.free().count(region) > 0 <==> {
            ||| pool.global.contains(region)
            ||| pool.clean.contains(region)
            ||| exists|i: int| 0 <= i < pool.locals.len() && (#[trigger] pool.locals[i]).items.contains(region)
        },
        pool.free().len() == pool.global.len() + pool.clean.len() + cached_len(pool.locals),
        pool.exhausted() <==> pool.free().len() == 0,
        pool.caches_empty() <==> cached_len(pool.locals) == 0,
        pool.bytes() == pow2(pool.exponent),
{
    broadcast use {vstd::multiset::group_multiset_axioms, vstd::seq_lib::group_to_multiset_ensures};
    lemma_cached_somewhere(pool.locals, region);
    lemma_cached_len(pool.locals);
    lemma_nothing_cached(pool.locals);
}

/// What all caches hold, what all threads count and what all areas have grows with each of them by its own.
pub proof fn law_totals_add_up(locals: Seq<LocalView>, local: LocalView, areas: Seq<Region>, area: Region)
    ensures
        cached_len(Seq::empty()) == 0,
        cached_len(locals.push(local)) == cached_len(locals) + local.items.len(),
        area_bytes(Seq::empty()) == 0,
        area_bytes(areas.push(area)) == area_bytes(areas) + area.1,
        areas_of(Seq::empty()).len() == 0,
{
    assert(locals.push(local).drop_last() =~= locals);
    assert(areas.push(area).drop_last() =~= areas);
}

/// The statistics show the areas, what the shared queues hold, what the caches hold together, and all that
/// is free, as far as a machine word can hold it.
pub proof fn law_statistics_show_the_queues(pool: ClassView)
    requires
        pool.wf(),
        pool.areas.len() <= usize::MAX,
        pool.free().len() <= usize::MAX,
    ensures
        class_stats(pool).areas == pool.areas.len(),
        class_stats(pool).global_regions == pool.global.len(),
        class_stats(pool).clean_regions == pool.clean.len(),
        class_stats(pool).thread_regions == cached_len(pool.locals),
        class_stats(pool).free_regions == pool.global.len() + pool.clean.len() + cached_len(pool.locals),
        area_bytes(pool.areas) <= usize::MAX ==> class_stats(pool).area_total_bytes == area_bytes(pool.areas),
{
    law_free_is_what_the_queues_hold(pool, (0, 0));
    let m = usize::MAX as nat + 1;
    vstd::arithmetic::div_mod::lemma_small_mod(cached_len(pool.locals), m);
    vstd::arithmetic::div_mod::lemma_small_mod(
        cached_len(pool.locals) + pool.global.len() + pool.clean.len(),
        m,
    );
    if area_bytes(pool.areas) <= usize::MAX {
        vstd::arithmetic::div_mod::lemma_small_mod(area_bytes(pool.areas), m);
    }
}

/// The statistics count what each thread counts, and what the threads that have ended have counted. A counter
/// starts over at zero when it overflows.
pub proof fn law_statistics_count_all_threads(pool: ClassView, local: LocalView)
    ensures
        ({
            let alone = class_stats(ClassView { locals: Seq::empty(), ..pool });
            let before = class_stats(pool);
            let after = class_stats(ClassView { locals: pool.locals.push(local), ..pool });
            &&& alone.allocations == pool.retired.allocations
            &&& alone.slow_path == pool.retired.slow_path
            &&& alone.refill == pool.retired.refill
            &&& alone.deallocations == pool.retired.deallocations
            &&& alone.clear_eager_total == pool.retired.clear_eager
            &&& alone.clear_slow_total == pool.retired.clear_slow
            &&& after.allocations == before.allocations.wrapping_add(local.stats.allocations)
            &&& after.slow_path == before.slow_path.wrapping_add(local.stats.slow_path)
            &&& after.refill == before.refill.wrapping_add(local.stats.refill)
            &&& after.deallocations == before.deallocations.wrapping_add(local.stats.deallocations)
            &&& after.clear_eager_total == before.clear_eager_total.wrapping_add(local.stats.clear_eager)
            &&& after.clear_slow_total == before.clear_slow_total.wrapping_add(local.stats.clear_slow)
        }),
{
    assert(pool.locals.push(local).drop_last() =~= pool.locals);
}

/// Region sizes and addresses: a region of a pool has a power of two from 2 MiB to 128 GiB, is not dangling and
/// lies within the address space, and it belongs to the pool of that power. An area is cut without rest.
pub proof fn law_what_regions_and_areas_are(region: Region, class: nat, bytes: nat)
    ensures
        is_region(region, bytes) <==> region.1 == bytes && region.0 > 1 && region.0 + region.1 <= usize::MAX,
        is_area(region, bytes) <==> {
            &&& region.1 >= bytes
            &&& region.1 as nat % bytes == 0
            &&& region.1 <= isize::MAX
            &&& region.0 > 1
            &&& region.0 + region.1 <= usize::MAX
        },
        0x20_0000 <= pow2(class) <= 0x20_0000_0000 && is_region(region, pow2(class)) ==> is_pool_region(region)
            && pool_index(region.1 as nat) == class - 21,
        is_pool_region(region) ==> 0x20_0000 <= region.1 <= 0x20_0000_0000 && exists|k: nat|
            region.1 == #[trigger] pow2(k),
{
    law_sizes_served(0, class);
    law_class_is_unique(class, 0);
    if is_pool_region(region) {
        let k = choose|k: nat| in_valid_range(k as int) && is_region(region, #[trigger] pow2(k));
        lemma_class_bytes(k);
    }
}

/// A new pool has no memory, no thread, and has counted nothing.
pub proof fn law_new_pool_is_empty(exponent: nat, region: Region)
    ensures
        ({
            let pool = empty_class(exponent);
            &&& pool.exponent == exponent
            &&& pool.areas.len() == 0
            &&& pool.free().len() == 0
            &&& pool.locals.len() == 0
            &&& class_stats(pool).allocations == 0
            &&& class_stats(pool).slow_path == 0
            &&& class_stats(pool).refill == 0
            &&& class_stats(pool).deallocations == 0
            &&& class_stats(pool).clear_eager_total == 0
            &&& class_stats(pool).clear_slow_total == 0
            &&& class_stats(pool).area_total_bytes == 0
            &&& class_stats(pool).areas == 0
        }),
{
    law_free_is_what_the_queues_hold(empty_class(exponent), region);
    assert(cached_len(Seq::<LocalView>::empty()) == 0);
}

/// The pools but one are as they were.
pub open spec fn others_stay(before: Seq<ClassView>, after: Seq<ClassView>, i: int) -> bool {
    &&& after.len() == before.len()
    &&& forall|j: int| 0 <= j < before.len() && j != i ==> #[trigger] after[j] == before[j]
}

/// The threads but one are as they were.
pub open spec fn other_threads_stay(before: ClassView, after: ClassView, who: int) -> bool {
    &&& after.locals.len() == before.locals.len()
    &&& forall|k: int| 0 <= k < before.locals.len() && k != who ==> #[trigger] after.locals[k] == before.locals[k]
    &&& after.locals[who].thread_id == before.locals[who].thread_id
}

/// A thread that gives a region back keeps it in its cache as the next one to leave, while that holds fewer
/// regions than its bytes have room for, and nothing is to be cleared then, whatever the class. Where the
/// cache is full the region is shared behind all others, or where memory is returned eagerly it is to be
/// cleared and is nowhere until then. It is counted in either case, and nothing else changes.
pub proof fn law_release_goes_to_the_cache_while_it_has_room(
    before: Seq<ClassView>,
    thread_id: u64,
    region: Region,
    settings: Settings,
    i: int,
    who: int,
)
    requires
        pools_wf(before),
        registered(before, thread_id),
        is_pool_region(region),
        0 <= i < before.len(),
        pow2(before[i].exponent) == region.1,
        0 <= who < before[i].locals.len(),
        before[i].locals[who].thread_id == thread_id,
    ensures
        ({
            let after = returned(before, thread_id, region, settings);
            let room = settings.local_buffer_bytes as nat / pow2(before[i].exponent);
            let (old_local, new_local) = (before[i].locals[who], after[i].locals[who]);
            &&& others_stay(before, after, i)
            &&& other_threads_stay(before[i], after[i], who)
            &&& after[i].clean == before[i].clean
            &&& after[i].areas == before[i].areas
            &&& after[i].total_bytes == before[i].total_bytes
            &&& after[i].retired == before[i].retired
            &&& after[i].exponent == before[i].exponent
            &&& new_local.stats.deallocations == old_local.stats.deallocations.wrapping_add(1)
            &&& new_local.stats.allocations == old_local.stats.allocations
            &&& new_local.stats.slow_path == old_local.stats.slow_path
            &&& new_local.stats.refill == old_local.stats.refill
            &&& new_local.stats.clear_slow == old_local.stats.clear_slow
            &&& old_local.items.len() < room ==> {
                &&& !clears_first(before, thread_id, region, settings)
                &&& new_local.items == old_local.items.push(region)
                &&& after[i].global == before[i].global
                &&& new_local.stats.clear_eager == old_local.stats.clear_eager
            }
            &&& old_local.items.len() >= room && !settings.eager_return ==> {
                &&& !clears_first(before, thread_id, region, settings)
                &&& new_local.items == old_local.items
                &&& after[i].global == before[i].global.push(region)
                &&& new_local.stats.clear_eager == old_local.stats.clear_eager
            }
            &&& old_local.items.len() >= room && settings.eager_return ==> {
                &&& clears_first(before, thread_id, region, settings)
                &&& new_local.items == old_local.items
                &&& after[i].global == before[i].global
                &&& new_local.stats.clear_eager == old_local.stats.clear_eager.wrapping_add(1)
            }
        }),
{
    assert(before[i].wf() && before[i].exponent == i + VALID_SIZE_CLASS.start);
    law_class_is_unique(before[i].exponent, 0);
    assert(pool_index(region.1 as nat) == i);
    lemma_slot(before[i], thread_id, who);
}

/// A region that had to be cleared is shared behind all others, in the pool of its size, and nothing else
/// changes.
pub proof fn law_cleared_region_is_shared(before: Seq<ClassView>, region: Region, i: int)
    requires
        pools_wf(before),
        is_pool_region(region),
        0 <= i < before.len(),
        pow2(before[i].exponent) == region.1,
    ensures
        ({
            let after = cleared(before, region);
            &&& others_stay(before, after, i)
            &&& after[i].global == before[i].global.push(region)
            &&& after[i].clean == before[i].clean
            &&& after[i].locals == before[i].locals
            &&& after[i].areas == before[i].areas
            &&& after[i].total_bytes == before[i].total_bytes
            &&& after[i].retired == before[i].retired
            &&& after[i].exponent == before[i].exponent
        }),
{
    assert(before[i].wf() && before[i].exponent == i + VALID_SIZE_CLASS.start);
    law_class_is_unique(before[i].exponent, 0);
    assert(pool_index(region.1 as nat) == i);
}

/// A thread takes no more at once from a shared queue than half of what it may cache, but always one region
/// at least.
pub proof fn law_batch_is_half_a_cache(local_buffer_bytes: nat, bytes: nat)
    requires
        bytes > 0,
    ensures
        ({
            let limit = batch_limit(local_buffer_bytes, bytes);
            &&& limit >= 1
            &&& limit == 1 || 2 * limit * bytes <= local_buffer_bytes
            &&& 2 * (limit + 1) * bytes > local_buffer_bytes
        }),
{
    let limit = batch_limit(local_buffer_bytes, bytes);
    let whole = local_buffer_bytes / bytes;
    vstd::arithmetic::div_mod::lemma_fundamental_div_mod(local_buffer_bytes as int, bytes as int);
    vstd::arithmetic::div_mod::lemma_mod_bound(local_buffer_bytes as int, bytes as int);
    let r = local_buffer_bytes as int % bytes as int;
    if limit > 1 {
        assert(2 * limit * bytes <= local_buffer_bytes) by (nonlinear_arith)
            requires
                2 * limit <= whole,
                local_buffer_bytes == bytes * whole + r,
                r >= 0,
        ;
    }
    assert(2 * (limit + 1) * bytes > local_buffer_bytes) by (nonlinear_arith)
        requires
            2 * (limit + 1) >= whole + 1,
            local_buffer_bytes == bytes * whole + r,
            r < bytes,
            bytes > 0,
    ;
}

/// A thread that comes has an empty cache and has counted nothing; everyone else stays as they were. One that
/// has a cache already keeps it.
pub proof fn law_thread_comes_with_nothing(pool: ClassView, thread_id: u64)
    requires
        pool.wf(),
    ensures
        ({
            let after = pool_with_thread(pool, thread_id);
            let n = pool.locals.len() as int;
            &&& after.global == pool.global
            &&& after.clean == pool.clean
            &&& after.areas == pool.areas
            &&& after.total_bytes == pool.total_bytes
            &&& after.retired == pool.retired
            &&& after.exponent == pool.exponent
            &&& (exists|k: int| 0 <= k < n && (#[trigger] pool.locals[k]).thread_id == thread_id) ==> after.locals
                == pool.locals
            &&& (forall|k: int| 0 <= k < n ==> (#[trigger] pool.locals[k]).thread_id != thread_id) ==> {
                &&& after.locals.len() == n + 1
                &&& after.locals.take(n) == pool.locals
                &&& after.locals[n].thread_id == thread_id
                &&& after.locals[n].items.len() == 0
                &&& after.locals[n].stats.allocations == 0
                &&& after.locals[n].stats.slow_path == 0
                &&& after.locals[n].stats.refill == 0
                &&& after.locals[n].stats.deallocations == 0
                &&& after.locals[n].stats.clear_eager == 0
                &&& after.locals[n].stats.clear_slow == 0
            }
        }),
{
    let after = pool_with_thread(pool, thread_id);
    let n = pool.locals.len() as int;
    if forall|k: int| 0 <= k < n ==> (#[trigger] pool.locals[k]).thread_id != thread_id {
        assert(after.locals.take(n) =~= pool.locals);
    }
}

/// A thread that ends shares its cache behind all other shared regions, what it cached last first, and its
/// counters are added to those of the threads that have ended. Everyone else stays as they were.
pub proof fn law_thread_leaves_its_cache(pool: ClassView, thread_id: u64, who: int, k: int)
    requires
        pool.wf(),
        0 <= who < pool.locals.len(),
        pool.locals[who].thread_id == thread_id,
    ensures
        ({
            let after = pool_without_thread(pool, thread_id);
            let items = pool.locals[who].items;
            let stats = pool.locals[who].stats;
            &&& after.clean == pool.clean
            &&& after.areas == pool.areas
            &&& after.total_bytes == pool.total_bytes
            &&& after.exponent == pool.exponent
            &&& after.locals.len() == pool.locals.len() - 1
            &&& 0 <= k < who ==> after.locals[k] == pool.locals[k]
            &&& who < k < pool.locals.len() ==> after.locals[k - 1] == pool.locals[k]
            &&& after.global.len() == pool.global.len() + items.len()
            &&& 0 <= k < pool.global.len() ==> after.global[k] == pool.global[k]
            &&& 0 <= k < items.len() ==> after.global[pool.global.len() + k] == items[items.len() - 1 - k]
            &&& after.retired.allocations == pool.retired.allocations.wrapping_add(stats.allocations)
            &&& after.retired.slow_path == pool.retired.slow_path.wrapping_add(stats.slow_path)
            &&& after.retired.refill == pool.retired.refill.wrapping_add(stats.refill)
            &&& after.retired.deallocations == pool.retired.deallocations.wrapping_add(stats.deallocations)
            &&& after.retired.clear_eager == pool.retired.clear_eager.wrapping_add(stats.clear_eager)
            &&& after.retired.clear_slow == pool.retired.clear_slow.wrapping_add(stats.clear_slow)
        }),
{
    lemma_slot(pool, thread_id, who);
}

/// A thread without a cache leaves nothing behind.
pub proof fn law_stranger_leaves_nothing(pool: ClassView, thread_id: u64)
    requires
        forall|k: int| 0 <= k < pool.locals.len() ==> (#[trigger] pool.locals[k]).thread_id != thread_id,
    ensures
        pool_without_thread(pool, thread_id) == pool,
{
}

/// A tick takes the oldest shared regions: exactly as many as it wants to or as there are, where those that it
/// wants have no fewer bytes than are to be cleared at least; else no more than those bytes need. Where the
/// queue asked for another attempt to the last, it took fewer, and knows how many are left. It takes them from
/// the shared regions alone.
pub proof fn law_tick_takes_what_it_wants(pool: ClassView, clear_bytes: nat, want: nat, sweep: Sweep)
    requires
        pool.wf(),
        swept_from(pool, sweep_budget(clear_bytes, pow2(pool.exponent), want), sweep),
    ensures
        ({
            let taken = sweep.regions@.len();
            let after = pool.swept(taken);
            let bytes = pow2(pool.exponent);
            &&& taken <= pool.global.len()
            &&& taken <= want || (taken - 1) * bytes < clear_bytes
            &&& forall|k: int| 0 <= k < taken ==> (#[trigger] sweep.regions@[k])@ == pool.global[k]
            &&& pool.global == pool.global.take(taken as int) + after.global
            &&& after.clean == pool.clean
            &&& after.locals == pool.locals
            &&& after.areas == pool.areas
            &&& after.total_bytes == pool.total_bytes
            &&& after.retired == pool.retired
            &&& after.exponent == pool.exponent
            &&& sweep.complete && want * bytes >= clear_bytes ==> taken == if want < pool.global.len() {
                want
            } else {
                pool.global.len()
            }
            &&& sweep.complete && want * bytes >= clear_bytes && want == pool.global.len() / 2 ==> after.global.len()
                == pool.global.len() - pool.global.len() / 2
            &&& sweep.complete && want * bytes < clear_bytes ==> taken == pool.global.len() || (taken * bytes
                >= clear_bytes && (taken - 1) * bytes < clear_bytes)
            &&& !sweep.complete ==> taken < pool.global.len() && sweep.left > 0
            &&& want * bytes >= clear_bytes ==> sweep.left + taken == want
        }),
{
    let bytes = pow2(pool.exponent);
    let taken = sweep.regions@.len();
    let budget = sweep_budget(clear_bytes, bytes, want);
    lemma_class_bytes(pool.exponent);
    law_budget_is_least(clear_bytes, bytes, want, 0);
    if budget > 0 {
        law_budget_is_least(clear_bytes, bytes, want, (budget - 1) as nat);
    }
    assert(pool.global =~= pool.global.take(taken as int) + pool.swept(taken).global);
    assert forall|k: int| 0 <= k < taken implies (#[trigger] sweep.regions@[k])@ == pool.global[k] by {
        assert(handle_views(sweep.regions@)[k] == pool.global.subrange(0, taken as int)[k]);
    }
    if taken > want {
        assert((taken - 1) * bytes <= (budget - 1) * bytes) by (nonlinear_arith)
            requires
                taken <= budget,
                bytes > 0,
        ;
    }
    if want * bytes < clear_bytes {
        assert(budget > want) by (nonlinear_arith)
            requires
                want * bytes < clear_bytes,
                budget * bytes >= clear_bytes,
                budget >= want,
        ;
    }
}

/// Cleared regions go behind all others without contents, in their order, and are counted. Nothing else
/// changes.
pub proof fn law_tick_brings_back_clean_regions(pool: ClassView, regions: Seq<Region>)
    ensures
        ({
            let after = pool.cleaned(regions);
            &&& after.clean == pool.clean + regions
            &&& after.global == pool.global
            &&& after.locals == pool.locals
            &&& after.areas == pool.areas
            &&& after.total_bytes == pool.total_bytes
            &&& after.exponent == pool.exponent
            &&& after.retired.clear_slow == pool.retired.clear_slow.wrapping_add(regions.len() as u64)
            &&& after.retired.clear_eager == pool.retired.clear_eager
            &&& after.retired.allocations == pool.retired.allocations
            &&& after.retired.deallocations == pool.retired.deallocations
            &&& after.retired.slow_path == pool.retired.slow_path
            &&& after.retired.refill == pool.retired.refill
        }),
{
}

/// An area is cut into regions of the size of the class, one behind the other from its begin to its end. The
/// first one is handed out, and the others are free behind all regions without contents, in their order.
pub proof fn law_area_is_cut_and_kept(pool: ClassView, area: Region, k: int)
    requires
        usize::BITS == 64,
        pool.wf(),
        is_area(area, pow2(pool.exponent)),
    ensures
        ({
            let bytes = pow2(pool.exponent);
            let after = pool.refilled(area);
            let first = regions_of(area, pool.bytes())[0];
            let count = area.1 as nat / bytes;
            &&& first.0 == area.0
            &&& first.1 == bytes
            &&& count * bytes == area.1
            &&& after.clean.len() == pool.clean.len() + count - 1
            &&& 0 <= k < pool.clean.len() ==> after.clean[k] == pool.clean[k]
            &&& 1 <= k < count ==> after.clean[pool.clean.len() + k - 1].0 == area.0 + k * bytes
                && after.clean[pool.clean.len() + k - 1].1 == bytes
            &&& after.areas == pool.areas.push(area)
            &&& after.total_bytes == pool.total_bytes.wrapping_add(area.1)
            &&& after.global == pool.global
            &&& after.locals == pool.locals
            &&& after.retired == pool.retired
            &&& after.exponent == pool.exponent
        }),
{
    let bytes = pow2(pool.exponent);
    lemma_class_bytes(pool.exponent);
    lemma_regions_of(area, bytes);
    if 1 <= k < regions_of(area, bytes).len() {
        lemma_position_in_area(area, bytes, k);
    }
}

/// The next area has the regions of the last one and some more: the part of them that the dampener asks for,
/// those of 32 MiB, or one, whichever is most.
pub proof fn law_next_area_grows_by_the_most(last: nat, class: nat, dampener: usize)
    requires
        in_valid_range(class as int),
    ensures
        ({
            let bytes = pow2(class);
            let next = next_area_bytes(last * bytes, bytes, dampener);
            let more = next / bytes - last;
            let part = if dampener < usize::MAX {
                last / (dampener + 1) as nat
            } else {
                last / usize::MAX as nat
            };
            &&& next == (last + more) * bytes
            &&& more >= 1
            &&& more >= part
            &&& more * bytes > 0x200_0000 - bytes
            &&& more == 1 || more == part || more * bytes <= 0x200_0000
        }),
{
    let bytes = pow2(class);
    let next = next_area_bytes(last * bytes, bytes, dampener);
    let initial = INITIAL_SIZE as nat / bytes;
    let growth = last / dampener.saturating_add(1) as nat;
    let floor: nat = if initial > 1 {
        initial
    } else {
        1
    };
    let step: nat = if growth > floor {
        growth
    } else {
        floor
    };
    lemma_class_bytes(class);
    vstd::arithmetic::div_mod::lemma_div_by_multiple(last as int, bytes as int);
    vstd::arithmetic::div_mod::lemma_div_by_multiple((last + step) as int, bytes as int);
    assert(next == (last + step) * bytes);
    vstd::arithmetic::div_mod::lemma_fundamental_div_mod(0x200_0000, bytes as int);
    vstd::arithmetic::div_mod::lemma_mod_bound(0x200_0000, bytes as int);
    let r = 0x200_0000int % bytes as int;
    assert(initial * bytes <= 0x200_0000 && initial * bytes > 0x200_0000 - bytes) by (nonlinear_arith)
        requires
            0x200_0000 == bytes * initial + r,
            0 <= r < bytes,
    ;
    assert(step * bytes >= initial * bytes) by (nonlinear_arith)
        requires
            step >= initial,
    ;
}

/// The areas that are given up are those of all pools, the smallest class first and within a class the oldest
/// first.
pub proof fn law_all_areas_are_given_up(pools: Seq<ClassView>, pool: ClassView)
    ensures
        areas_of(Seq::empty()) == Seq::<Region>::empty(),
        areas_of(pools.push(pool)) == areas_of(pools) + pool.areas,
{
    assert(pools.push(pool).drop_last() =~= pools);
}

/// A thread that asks for a region gets the one that it cached last, if it has one cached. Else it gets the
/// first of the shared ones, else the first of those without contents, else what another thread cached first,
/// where a shared queue is passed over only if it is empty or asks for another attempt. It asks a shared queue
/// for half of what its cache has room for, or one, gets no more than that in all, and caches the ones that
/// follow the first, so that they leave in their order. The allocation is counted, and nothing else changes.
pub proof fn law_request_takes_a_region(
    before: ClassView,
    after: ClassView,
    who: int,
    region: Region,
    local_buffer_bytes: nat,
    dampener: usize,
)
    requires
        before.wf(),
        0 <= who < before.locals.len(),
        before.allocates(after, who, RefillView::Ready(region), local_buffer_bytes, dampener),
    ensures
        after.exponent == before.exponent,
        after.areas == before.areas,
        after.total_bytes == before.total_bytes,
        after.retired == before.retired,
        after.locals.len() == before.locals.len(),
        forall|k: int|
            0 <= k < before.locals.len() ==> (#[trigger] after.locals[k]).thread_id == before.locals[k].thread_id,
        forall|k: int|
            0 <= k < before.locals.len() && k != who ==> (#[trigger] after.locals[k]).stats == before.locals[k].stats,
        ({
            let (old_stats, new_stats) = (before.locals[who].stats, after.locals[who].stats);
            &&& new_stats.allocations == old_stats.allocations.wrapping_add(1)
            &&& new_stats.slow_path == old_stats.slow_path
            &&& new_stats.refill == old_stats.refill
            &&& new_stats.deallocations == old_stats.deallocations
            &&& new_stats.clear_eager == old_stats.clear_eager
            &&& new_stats.clear_slow == old_stats.clear_slow
        }),
        before.locals[who].items.len() > 0 ==> {
            &&& before.locals[who].items == after.locals[who].items.push(region)
            &&& after.global == before.global
            &&& after.clean == before.clean
            &&& other_threads_stay(before, after, who)
        },
        before.locals[who].items.len() == 0 ==> {
            ||| {
                &&& batch_answer(
                    before.global,
                    Seq::empty(),
                    batch_limit(local_buffer_bytes, pow2(before.exponent)),
                    Steal::Success(region),
                )
                &&& batch_taken(before.global, after.global, after.locals[who].items, region, local_buffer_bytes, pow2(
                    before.exponent,
                ))
                &&& after.clean == before.clean
                &&& other_threads_stay(before, after, who)
            }
            ||| {
                &&& before.global.len() > 0 ==> batch_answer(
                    before.global,
                    Seq::empty(),
                    batch_limit(local_buffer_bytes, pow2(before.exponent)),
                    Steal::Retry,
                )
                &&& batch_answer(
                    before.clean,
                    Seq::empty(),
                    batch_limit(local_buffer_bytes, pow2(before.exponent)),
                    Steal::Success(region),
                )
                &&& batch_taken(before.clean, after.clean, after.locals[who].items, region, local_buffer_bytes, pow2(
                    before.exponent,
                ))
                &&& after.global == before.global
                &&& other_threads_stay(before, after, who)
            }
            ||| {
                &&& before.global.len() > 0 ==> batch_answer(
                    before.global,
                    Seq::empty(),
                    batch_limit(local_buffer_bytes, pow2(before.exponent)),
                    Steal::Retry,
                )
                &&& before.clean.len() > 0 ==> batch_answer(
                    before.clean,
                    Seq::empty(),
                    batch_limit(local_buffer_bytes, pow2(before.exponent)),
                    Steal::Retry,
                )
                &&& after.global == before.global
                &&& after.clean == before.clean
                &&& after.locals[who].items.len() == 0
                &&& exists|other: int|
                    0 <= other < before.locals.len() && other != who && (#[trigger] before.locals[other]).items
                        == seq![region] + after.locals[other].items && forall|k: int|
                        0 <= k < before.locals.len() && k != who && k != other ==> #[trigger] after.locals[k]
                            == before.locals[k]
            }
        },
{
    let stats = before.locals[who].stats;
    let uncounted = after.with_stats(who, stats);
    let limit = batch_limit(local_buffer_bytes, before.bytes());
    let items = before.locals[who].items;
    lemma_class_bytes(before.exponent);
    law_batch_is_half_a_cache(local_buffer_bytes, before.bytes());
    assert(before.takes(uncounted, who, region, limit));
    assert(items.len() == 0 ==> items =~= Seq::empty());
    if items.len() > 0 {
        assert(items =~= items.drop_last().push(region));
        assert forall|k: int| 0 <= k < before.locals.len() && k != who implies #[trigger] after.locals[k]
            == before.locals[k] by {
            assert(uncounted.locals[k] == before.locals[k]);
        }
        assert(after.locals[who].items == uncounted.locals[who].items);
    } else if before.takes_global(uncounted, who, region, limit) {
        lemma_batch_taken(
            before.global,
            uncounted.global,
            items,
            uncounted.locals[who].items,
            region,
            limit,
            local_buffer_bytes,
            before.bytes(),
        );
        assert forall|k: int| 0 <= k < before.locals.len() && k != who implies #[trigger] after.locals[k]
            == before.locals[k] by {
            assert(uncounted.locals[k] == before.locals[k]);
        }
        assert(after.locals[who].items == uncounted.locals[who].items);
    } else if before.takes_clean(uncounted, who, region, limit) {
        lemma_batch_taken(
            before.clean,
            uncounted.clean,
            items,
            uncounted.locals[who].items,
            region,
            limit,
            local_buffer_bytes,
            before.bytes(),
        );
        assert forall|k: int| 0 <= k < before.locals.len() && k != who implies #[trigger] after.locals[k]
            == before.locals[k] by {
            assert(uncounted.locals[k] == before.locals[k]);
        }
        assert(after.locals[who].items == uncounted.locals[who].items);
    } else {
        let other = choose|other: int| #[trigger] before.takes_from(uncounted, other, region);
        assert(before.takes_from(uncounted, other, region));
        let theirs = before.locals[other].items;
        assert(other != who);
        assert(uncounted.locals[other].items == theirs.drop_first());
        assert(after.locals[other] == uncounted.locals[other]);
        assert(theirs =~= seq![region] + after.locals[other].items);
        assert(after.locals[who].items == uncounted.locals[who].items);
        assert forall|k: int| 0 <= k < before.locals.len() && k != who && k != other implies #[trigger] after.locals[k]
            == before.locals[k] by {
            assert(uncounted.locals[k] == before.locals[k]);
        }
    }
    assert forall|k: int| 0 <= k < before.locals.len() implies (#[trigger] after.locals[k]).thread_id
        == before.locals[k].thread_id && (k != who ==> after.locals[k].stats == before.locals[k].stats) by {
        assert(uncounted.locals[k].thread_id == before.locals[k].thread_id);
        assert(uncounted.locals[k].stats == before.locals[k].stats);
    }
}

/// The first region left a shared queue, and those that follow it are in a cache, from which they leave in
/// their order. In all they are no more than half of the cache has room for, or one.
pub open spec fn batch_taken(
    queue: Seq<Region>,
    queue_after: Seq<Region>,
    items: Seq<Region>,
    region: Region,
    local_buffer_bytes: nat,
    bytes: nat,
) -> bool {
    &&& queue == seq![region] + items.reverse() + queue_after
    &&& items.len() == 0 || 2 * (items.len() + 1) * bytes <= local_buffer_bytes
}

/// A batch that moved, told by what is left.
proof fn lemma_batch_taken(
    queue: Seq<Region>,
    queue_after: Seq<Region>,
    items: Seq<Region>,
    items_after: Seq<Region>,
    region: Region,
    limit: nat,
    local_buffer_bytes: nat,
    bytes: nat,
)
    requires
        items.len() == 0,
        queue.len() > 0,
        region == queue[0],
        exists|taken: nat|
            taken <= limit && #[trigger] batch_moved(queue, queue_after, items, items_after, true, 1, taken),
        limit == 1 || 2 * limit * bytes <= local_buffer_bytes,
    ensures
        batch_taken(queue, queue_after, items_after, region, local_buffer_bytes, bytes),
{
    let taken = choose|taken: nat|
        taken <= limit && #[trigger] batch_moved(queue, queue_after, items, items_after, true, 1, taken);
    assert(items_after =~= queue.subrange(1, taken as int).reverse());
    assert(items_after.reverse() =~= queue.subrange(1, taken as int));
    assert(queue =~= seq![region] + items_after.reverse() + queue_after);
    if taken > 1 {
        assert(2 * taken * bytes <= 2 * limit * bytes) by (nonlinear_arith)
            requires
                taken <= limit,
        ;
    }
}

/// A thread that asks a pool without free regions is told the size of the area to map: it is counted as an
/// allocation, on the slow path, and as a refill. Where the shared queues ask for another attempt, nothing
/// happened. Nothing else changes, and only a pool without free regions needs an area.
pub proof fn law_request_without_a_region(
    before: ClassView,
    after: ClassView,
    who: int,
    refill: RefillView,
    local_buffer_bytes: nat,
    dampener: usize,
)
    requires
        before.wf(),
        0 <= who < before.locals.len(),
        before.allocates(after, who, refill, local_buffer_bytes, dampener),
    ensures
        refill is NeedArea <==> before.free().len() == 0,
        refill is Again ==> {
            &&& after == before
            &&& cached_len(before.locals) == 0
            &&& before.global.len() + before.clean.len() > 0
            &&& before.global.len() > 0 ==> batch_answer(
                before.global,
                Seq::empty(),
                batch_limit(local_buffer_bytes, pow2(before.exponent)),
                Steal::Retry,
            )
            &&& before.clean.len() > 0 ==> batch_answer(
                before.clean,
                Seq::empty(),
                batch_limit(local_buffer_bytes, pow2(before.exponent)),
                Steal::Retry,
            )
        },
        refill matches RefillView::NeedArea(len) ==> {
            let (old_stats, new_stats) = (before.locals[who].stats, after.locals[who].stats);
            &&& len == next_area_bytes(
                if before.areas.len() > 0 {
                    before.areas.last().1 as nat
                } else {
                    0
                },
                pow2(before.exponent),
                dampener,
            )
            &&& after.global == before.global
            &&& after.clean == before.clean
            &&& after.areas == before.areas
            &&& after.total_bytes == before.total_bytes
            &&& after.retired == before.retired
            &&& after.exponent == before.exponent
            &&& other_threads_stay(before, after, who)
            &&& after.locals[who].items == before.locals[who].items
            &&& new_stats.allocations == old_stats.allocations.wrapping_add(1)
            &&& new_stats.slow_path == old_stats.slow_path.wrapping_add(1)
            &&& new_stats.refill == old_stats.refill.wrapping_add(1)
            &&& new_stats.deallocations == old_stats.deallocations
            &&& new_stats.clear_eager == old_stats.clear_eager
            &&& new_stats.clear_slow == old_stats.clear_slow
        },
{
    law_free_is_what_the_queues_hold(before, (0, 0));
    if refill is Again {
        assert(before.locals[who].items.len() == 0);
        assert(before.locals[who].items =~= Seq::empty());
    }
}

/// A request for elements gets a region of the least power of two that holds them, at least a page: with less
/// than twice the bytes. It is aligned for them, and its capacity is as many of them as it holds. An area that
/// has to be mapped is for such regions.
pub proof fn law_request_gets_the_least_power(
    shape: Shape,
    before: Seq<ClassView>,
    after: Seq<ClassView>,
    thread_id: u64,
    settings: Settings,
    capacity: usize,
    page: usize,
    step: Step<Result<Allocation, AllocError>>,
    other: nat,
)
    requires
        usize::BITS == 64,
        pools_wf(before),
        registered(before, thread_id),
        allocate_outcome(shape, before, after, thread_id, settings, capacity, page, step),
        shape.size > 0,
        capacity > 0,
    ensures
        step matches Step::Done(Ok((addr, actual, handle))) ==> {
            let len = handle@.1 as nat;
            &&& settings.enabled
            &&& addr == handle@.0
            &&& addr > 1
            &&& addr as nat % shape.align == 0
            &&& exists|k: nat| len == #[trigger] pow2(k)
            &&& 0x20_0000 <= len <= 0x20_0000_0000
            &&& shape.size * capacity <= len
            &&& page <= len
            &&& shape.size * capacity >= page ==> len < 2 * (shape.size * capacity)
            &&& shape.size * capacity < page ==> len < 2 * page
            &&& pow2(other) >= shape.size * capacity && pow2(other) >= page ==> len <= pow2(other)
            &&& actual * shape.size <= len < (actual + 1) * shape.size
        },
        step matches Step::NeedArea(request) ==> {
            let len = pow2(request.size_class.exponent());
            &&& settings.enabled
            &&& 0x20_0000 <= len <= 0x20_0000_0000
            &&& shape.size * capacity <= len
            &&& page <= len
            &&& shape.size * capacity >= page ==> len < 2 * (shape.size * capacity)
            &&& shape.size * capacity < page ==> len < 2 * page
            &&& pow2(other) >= shape.size * capacity && pow2(other) >= page ==> len <= pow2(other)
        },
{
    let size = shape.size;
    let class = class_for(bytes_needed(size, capacity, page));
    lemma_request_class(size, capacity, page);
    if settings.enabled && in_valid_range(class as int) {
        let (pool, answer) = choose|pool: ClassView, answer: RefillView| #[trigger]
            class_answered(shape, before, after, thread_id, settings, class, pool, answer, step);
        assert(class_answered(shape, before, after, thread_id, settings, class, pool, answer, step));
        let index = class - VALID_SIZE_CLASS.start;
        assert(before[index].wf() && before[index].exponent == class);
        assert(before[index].has_thread(thread_id));
        let slot = before[index].slot(thread_id);
        assert(0 <= slot < before[index].locals.len() && before[index].locals[slot].thread_id == thread_id);
        lemma_allocates(
            before[index],
            pool,
            slot,
            answer,
            settings.local_buffer_bytes as nat,
            settings.growth_dampener,
        );
        lemma_class_bytes(class);
        law_class_is_of_the_least_power(
            if size * capacity >= page {
                size * capacity as nat
            } else {
                page as nat
            },
            other,
        );
        if let Step::Done(Ok((addr, actual, handle))) = step {
            let len = handle@.1 as nat;
            assert(is_region(handle@, pow2(class)));
            assert(len == pow2(class));
            vstd::arithmetic::div_mod::lemma_fundamental_div_mod(len as int, size as int);
            vstd::arithmetic::div_mod::lemma_mod_bound(len as int, size as int);
            assert(actual * size <= len < (actual + 1) * size) by (nonlinear_arith)
                requires
                    len == size * (len as int / size as int) + len as int % size as int,
                    0 <= len as int % size as int,
                    (len as int % size as int) < size,
                    actual == len as int / size as int,
            ;
        }
    }
}

/// The class of a request is that of the bytes that it wants, and is served where those are.
proof fn lemma_request_class(size: nat, capacity: usize, page: usize)
    requires
        usize::BITS == 64,
        size > 0,
        capacity > 0,
    ensures
        ({
            let want = if size * capacity >= page {
                size * capacity as nat
            } else {
                page as nat
            };
            let class = class_for(bytes_needed(size, capacity, page));
            &&& in_valid_range(class as int) <==> 0x10_0000 < want <= 0x20_0000_0000
            &&& want <= usize::MAX ==> class == class_for(want)
            &&& want > usize::MAX ==> class == 64
        }),
{
    let want = if size * capacity >= page {
        size * capacity as nat
    } else {
        page as nat
    };
    lemma2_to64();
    lemma2_to64_rest();
    law_sizes_served(bytes_needed(size, capacity, page), 0);
    if want > usize::MAX {
        law_class_is_unique(64, usize::MAX as nat);
    }
}

/// A request for elements is refused, and nothing changes, where no more than 1 MiB or more than 128 GiB are
/// needed: with the class of those bytes. Where the allocator is disabled every other request is refused.
/// Otherwise it is refused only where its region is not aligned for the elements.
pub proof fn law_request_is_refused(
    shape: Shape,
    before: Seq<ClassView>,
    after: Seq<ClassView>,
    thread_id: u64,
    settings: Settings,
    capacity: usize,
    page: usize,
    step: Step<Result<Allocation, AllocError>>,
    want: nat,
)
    requires
        usize::BITS == 64,
        pools_wf(before),
        registered(before, thread_id),
        allocate_outcome(shape, before, after, thread_id, settings, capacity, page, step),
        shape.size > 0,
        capacity > 0,
        want == shape.size * capacity || want == page,
        want >= shape.size * capacity,
        want >= page,
    ensures
        ({
            &&& !(0x10_0000 < want <= 0x20_0000_0000) ==> after == before && (step matches Step::Done(
                Err(AllocError::InvalidSizeClass(class)),
            ) && (want > usize::MAX ==> class == 64) && (1 < want <= usize::MAX ==> want <= pow2(class as nat)
                && pow2(class as nat) < 2 * want))
            &&& 0x10_0000 < want <= 0x20_0000_0000 && !settings.enabled ==> after == before && (
            step matches Step::Done(Err(e)) && e is Disabled)
            &&& 0x10_0000 < want <= 0x20_0000_0000 && settings.enabled ==> match step {
                Step::Done(Err(e)) => e is UnalignedMemory,
                Step::Clear(_, result) => result matches Err(e) && e is UnalignedMemory,
                _ => true,
            }
        }),
{
    let class = class_for(bytes_needed(shape.size, capacity, page));
    lemma_request_class(shape.size, capacity, page);
    law_class_is_of_the_least_power(want, 0);
    if settings.enabled && in_valid_range(class as int) {
        let (pool, answer) = choose|pool: ClassView, answer: RefillView| #[trigger]
            class_answered(shape, before, after, thread_id, settings, class, pool, answer, step);
        assert(class_answered(shape, before, after, thread_id, settings, class, pool, answer, step));
    }
}

/// A request for no elements, or for elements without size, needs no memory: it gets an aligned address
/// without a region, and as many elements as there may be, unless the allocator is disabled. Nothing changes.
pub proof fn law_request_for_nothing(
    shape: Shape,
    before: Seq<ClassView>,
    after: Seq<ClassView>,
    thread_id: u64,
    settings: Settings,
    capacity: usize,
    page: usize,
    step: Step<Result<Allocation, AllocError>>,
)
    requires
        allocate_outcome(shape, before, after, thread_id, settings, capacity, page, step),
        shape.size == 0 || capacity == 0,
    ensures
        after == before,
        settings.enabled ==> (step matches Step::Done(Ok((addr, actual, handle))) && addr == shape.align && handle@.0
            == 1 && handle@.1 == 0 && (shape.size == 0 ==> actual == usize::MAX) && (shape.size > 0 ==> actual
            == 0)),
        !settings.enabled ==> (step matches Step::Done(Err(e)) && e is Disabled),
{
}

/// What a request does to the pool of its size, and that it does nothing to the others. While the pool has a
/// free region no area is mapped, and the request is answered with memory where all of them are aligned for
/// its elements, unless it is to be repeated; what its thread cached last comes first.
pub proof fn law_request_is_answered_by_its_pool(
    shape: Shape,
    before: Seq<ClassView>,
    after: Seq<ClassView>,
    thread_id: u64,
    settings: Settings,
    capacity: usize,
    page: usize,
    step: Step<Result<Allocation, AllocError>>,
    want: nat,
    i: int,
    who: int,
)
    requires
        usize::BITS == 64,
        pools_wf(before),
        registered(before, thread_id),
        allocate_outcome(shape, before, after, thread_id, settings, capacity, page, step),
        shape.size > 0,
        capacity > 0,
        settings.enabled,
        0 <= i < before.len(),
        want == shape.size * capacity || want == page,
        want >= shape.size * capacity,
        want >= page,
        want <= pow2(before[i].exponent) < 2 * want,
        0 <= who < before[i].locals.len(),
        before[i].locals[who].thread_id == thread_id,
    ensures
        others_stay(before, after, i),
        after[i].areas == before[i].areas,
        step is NeedArea <==> before[i].free().len() == 0,
        step is Again ==> after == before && cached_len(before[i].locals) == 0 && before[i].global.len()
            + before[i].clean.len() > 0,
        step matches Step::NeedArea(request) ==> {
            &&& request.size_class.exponent() == before[i].exponent
            &&& request.len == next_area_bytes(
                if before[i].areas.len() > 0 {
                    before[i].areas.last().1 as nat
                } else {
                    0
                },
                pow2(before[i].exponent),
                settings.growth_dampener,
            )
            &&& after[i].global == before[i].global
            &&& after[i].clean == before[i].clean
            &&& after[i].locals[who].items == before[i].locals[who].items
        },
        step matches Step::Done(Ok((_, _, handle))) ==> {
            &&& before[i].free() == after[i].free().insert(handle@)
            &&& handle@.1 == pow2(before[i].exponent)
            &&& before[i].locals[who].items.len() > 0 ==> before[i].locals[who].items
                == after[i].locals[who].items.push(handle@)
        },
        ({
            let limit = batch_limit(settings.local_buffer_bytes as nat, pow2(before[i].exponent));
            let (global, clean) = (before[i].global, before[i].clean);
            let shared_answers = !batch_answer(global, Seq::empty(), limit, Steal::Retry);
            let clean_answers = !batch_answer(clean, Seq::empty(), limit, Steal::Retry);
            &&& shared_answers && clean_answers ==> !(step is Again)
            &&& before[i].locals[who].items.len() == 0 && global.len() > 0 && shared_answers ==> (
            step matches Step::Done(Ok((_, _, handle))) ==> handle@ == global[0])
            &&& before[i].locals[who].items.len() == 0 && global.len() == 0 && clean.len() > 0 && clean_answers ==> (
            step matches Step::Done(Ok((_, _, handle))) ==> handle@ == clean[0])
        }),
        (forall|r: Region| #[trigger] before[i].free().count(r) > 0 ==> r.0 as nat % shape.align == 0) ==> {
            ||| step is NeedArea
            ||| step is Again
            ||| step matches Step::Done(Ok(_))
        },
        before[i].locals[who].items.len() > 0 && before[i].locals[who].items.last().0 as nat % shape.align == 0
            ==> (step matches Step::Done(Ok(_))),
{
    broadcast use vstd::multiset::group_multiset_axioms;
    let class = class_for(bytes_needed(shape.size, capacity, page));
    let pool_before = before[i];
    assert(pool_before.wf() && pool_before.exponent == i + VALID_SIZE_CLASS.start);
    lemma_class_bytes(pool_before.exponent);
    lemma_request_class(shape.size, capacity, page);
    lemma_pow2_unfold(pool_before.exponent);
    assert(is_class_of(pool_before.exponent, want));
    law_class_is_unique(pool_before.exponent, want);
    assert(class == pool_before.exponent);
    lemma_slot(pool_before, thread_id, who);
    let (pool, answer) = choose|pool: ClassView, answer: RefillView| #[trigger]
        class_answered(shape, before, after, thread_id, settings, class, pool, answer, step);
    assert(class_answered(shape, before, after, thread_id, settings, class, pool, answer, step));
    let bytes = settings.local_buffer_bytes as nat;
    lemma_allocates(pool_before, pool, who, answer, bytes, settings.growth_dampener);
    law_request_without_a_region(pool_before, pool, who, answer, bytes, settings.growth_dampener);
    if let RefillView::Ready(region) = answer {
        law_request_takes_a_region(pool_before, pool, who, region, bytes, settings.growth_dampener);
        law_class_is_unique(pool_before.exponent, 0);
        assert(pool_index(region.1 as nat) == i);
        assert(pool_before.free().count(region) > 0);
        assert(pool.locals[who].thread_id == thread_id);
        lemma_slot(pool, thread_id, who);
    }
}

/// A region that was taken for elements is handed out exactly where it is aligned for them, with the pools as
/// they are; else the request is refused, and the region goes back as any released one.
pub proof fn law_region_is_handed_out_if_aligned(
    shape: Shape,
    before: Seq<ClassView>,
    after: Seq<ClassView>,
    thread_id: u64,
    settings: Settings,
    region: Region,
    step: Step<Result<Allocation, AllocError>>,
)
    requires
        region_placed(shape, before, after, thread_id, settings, region, step),
        shape.size > 0,
    ensures
        region.0 as nat % shape.align == 0 ==> after == before && (step matches Step::Done(Ok((addr, actual, handle)))
            && addr == region.0 && handle@ == region && actual * shape.size <= region.1 && region.1 < (actual + 1)
            * shape.size),
        region.0 as nat % shape.align != 0 ==> after == returned(before, thread_id, region, settings) && match step {
            Step::Done(Err(e)) => e is UnalignedMemory && !clears_first(before, thread_id, region, settings),
            Step::Clear(handle, Err(e)) => e is UnalignedMemory && handle@ == region && clears_first(
                before,
                thread_id,
                region,
                settings,
            ),
            _ => false,
        },
{
    let (size, len) = (shape.size, region.1 as nat);
    vstd::arithmetic::div_mod::lemma_fundamental_div_mod(len as int, size as int);
    vstd::arithmetic::div_mod::lemma_mod_bound(len as int, size as int);
    if let Step::Done(Ok((_, actual, _))) = step {
        if region.0 as nat % shape.align == 0 {
            assert(actual * size <= len < (actual + 1) * size) by (nonlinear_arith)
                requires
                    len == size * (len as int / size as int) + len as int % size as int,
                    0 <= len as int % size as int,
                    (len as int % size as int) < size,
                    actual == len as int / size as int,
            ;
        }
    }
}

/// What elements of a type need is their size and their alignment, and an answer suffices where it has room
/// for as many elements as were asked for.
pub proof fn law_shapes_are_those_of_types<T>(capacity: usize, step: Step<Result<Allocation, AllocError>>)
    ensures
        shape_of::<T>().size == vstd::layout::size_of::<T>(),
        shape_of::<T>().align == vstd::layout::align_of::<T>(),
        step_suffices::<T>(capacity, step) ==> (step matches Step::Done(Ok((_, actual, handle))) ==> actual >= capacity
            && (handle@.0 == 1 <==> capacity * vstd::layout::size_of::<T>() == 0)),
        step_wf::<T>(step) ==> (step matches Step::Done(Ok((_, actual, handle))) ==> handle@.0 != 1 ==> actual
            * vstd::layout::size_of::<T>() <= handle@.1 && is_pool_region(handle@)),
{
    assert(capacity * vstd::layout::size_of::<T>() == 0 <==> capacity == 0 || vstd::layout::size_of::<T>() == 0)
        by (nonlinear_arith);
}

/// A tick that goes on takes the oldest shared regions: as many as are left to take or as there are, unless
/// the queue asked for another attempt to the last, and never more than are left.
pub proof fn law_tick_goes_on_with_what_is_left(pool: ClassView, left: nat, sweep: Sweep)
    requires
        swept_from(pool, left, sweep),
    ensures
        !sweep.complete ==> move_asks_again(pool.swept(sweep.regions@.len()).global, sweep.left as nat),
        sweep.regions@.len() + sweep.left == left,
        sweep.regions@.len() <= pool.global.len(),
        forall|k: int| 0 <= k < sweep.regions@.len() ==> (#[trigger] sweep.regions@[k])@ == pool.global[k],
        sweep.complete <==> sweep.left == 0 || sweep.regions@.len() == pool.global.len(),
{
    assert forall|k: int| 0 <= k < sweep.regions@.len() implies (#[trigger] sweep.regions@[k])@ == pool.global[k] by {
        assert(handle_views(sweep.regions@)[k] == pool.global.subrange(0, sweep.regions@.len() as int)[k]);
    }
}

/// A thread that is registered has one cache in each pool.
pub proof fn law_registered_has_caches(pools: Seq<ClassView>, thread_id: u64, i: int)
    requires
        pools_wf(pools),
        0 <= i < pools.len(),
    ensures
        pools[i].has_thread(thread_id) <==> exists|k: int|
            0 <= k < pools[i].locals.len() && (#[trigger] pools[i].locals[k]).thread_id == thread_id,
        registered(pools, thread_id) ==> {
            let k = pools[i].slot(thread_id);
            &&& 0 <= k < pools[i].locals.len()
            &&& pools[i].locals[k].thread_id == thread_id
            &&& forall|l: int|
                0 <= l < pools[i].locals.len() && l != k ==> (#[trigger] pools[i].locals[l]).thread_id != thread_id
        },
{
    assert(pools[i].wf());
    if registered(pools, thread_id) {
        assert(pools[i].has_thread(thread_id));
    }
}

/// What a thread is told of its request is what its pool answered.
pub proof fn law_answer_is_told(refill: Refill)
    ensures
        refill matches Refill::Ready(handle) ==> refill_view(refill) == RefillView::Ready(handle@),
        refill matches Refill::NeedArea(len) ==> refill_view(refill) == RefillView::NeedArea(len),
        refill is Again ==> refill_view(refill) is Again,
{
}

} // verus!
