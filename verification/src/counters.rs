//! The counters of the pools, whatever happens to them.
use crate::allocation::{bytes_needed, class_answered, region_placed, Allocation, Shape, Step};
use crate::config::Settings;
use crate::error::AllocError;
use crate::history::{history, law_every_world_is_in_order, lemma_region_has_pool, moved, Move, World};
use crate::laws::{
    counts_ordered, law_counter_order_kept_by_allocation, law_counter_order_kept_otherwise,
    law_statistics_are_ordered, ordered, running_allocations,
};
use crate::model::{
    batch_limit, is_region, lemma_allocates, lemma_refilled, lemma_takes, regions_of, ClassView, LocalView,
    RefillView, Region,
};
use crate::pool::{is_pool_region, pool_index, pool_with_thread, pool_without_thread, registered, returned};
use crate::size_class::{class_for, in_valid_range, law_class_is_unique, VALID_SIZE_CLASS};
use crate::stats::class_stats;
use vstd::arithmetic::power2::pow2;
use vstd::prelude::*;

verus! {

/// The allocations that were counted, by all threads.
pub open spec fn counted_allocations(pool: ClassView) -> nat {
    running_allocations(pool.locals) + pool.retired.allocations as nat
}

/// The counters of each pool are in order, and no pool has counted more than `n` allocations.
pub open spec fn counters_in_order(pools: Seq<ClassView>, n: nat) -> bool {
    forall|i: int| 0 <= i < pools.len() ==> counts_ordered(#[trigger] pools[i]) && counted_allocations(pools[i]) <= n
}

/// The allocations of all threads where one has counted some more.
proof fn lemma_one_counted(before: Seq<LocalView>, after: Seq<LocalView>, who: int)
    requires
        after.len() == before.len(),
        0 <= who < before.len(),
        forall|i: int|
            0 <= i < before.len() && i != who ==> (#[trigger] after[i]).stats.allocations
                == before[i].stats.allocations,
    ensures
        running_allocations(after) + before[who].stats.allocations == running_allocations(before)
            + after[who].stats.allocations,
        before[who].stats.allocations <= running_allocations(before),
    decreases before.len(),
{
    let last = before.len() - 1;
    if who == last {
        lemma_none_counted(before.drop_last(), after.drop_last());
    } else {
        lemma_one_counted(before.drop_last(), after.drop_last(), who);
        assert(after[last].stats.allocations == before[last].stats.allocations);
    }
}

/// The allocations of all threads where none has counted any.
proof fn lemma_none_counted(before: Seq<LocalView>, after: Seq<LocalView>)
    requires
        after.len() == before.len(),
        forall|i: int|
            0 <= i < before.len() ==> (#[trigger] after[i]).stats.allocations == before[i].stats.allocations,
    ensures
        running_allocations(after) == running_allocations(before),
    decreases before.len(),
{
    if before.len() > 0 {
        lemma_none_counted(before.drop_last(), after.drop_last());
        assert(after[before.len() - 1].stats.allocations == before[before.len() - 1].stats.allocations);
    }
}

/// The allocations of all threads but one.
proof fn lemma_one_left(locals: Seq<LocalView>, who: int)
    requires
        0 <= who < locals.len(),
    ensures
        running_allocations(locals) == running_allocations(locals.remove(who)) + locals[who].stats.allocations,
    decreases locals.len(),
{
    let rest = locals.remove(who);
    if who == locals.len() - 1 {
        assert(rest =~= locals.drop_last());
    } else {
        lemma_one_left(locals.drop_last(), who);
        assert(rest.drop_last() =~= locals.drop_last().remove(who));
    }
}

/// A request counts at most one allocation.
proof fn lemma_allocation_counted(
    before: ClassView,
    after: ClassView,
    who: int,
    refill: RefillView,
    local_buffer_bytes: nat,
    dampener: usize,
)
    requires
        before.wf(),
        0 <= who < before.locals.len(),
        before.allocates(after, who, refill, local_buffer_bytes, dampener),
        counts_ordered(before),
        counted_allocations(before) < u64::MAX,
    ensures
        counts_ordered(after),
        counted_allocations(after) <= counted_allocations(before) + 1,
{
    lemma_one_counted(before.locals, before.locals, who);
    law_counter_order_kept_by_allocation(before, after, who, refill, local_buffer_bytes, dampener);
    let uncounted = after.with_stats(who, before.locals[who].stats);
    if let RefillView::Ready(region) = refill {
        lemma_takes(before, uncounted, who, region, batch_limit(local_buffer_bytes, before.bytes()));
    }
    assert forall|i: int| 0 <= i < before.locals.len() && i != who implies (
    #[trigger] after.locals[i]).stats.allocations == before.locals[i].stats.allocations by {
        if refill is Ready {
            assert(uncounted.locals[i].stats == before.locals[i].stats);
        }
    }
    lemma_one_counted(before.locals, after.locals, who);
}

/// Giving a region back counts no allocation.
proof fn lemma_release_counted(pool: ClassView, who: int, region: Region, local_buffer_bytes: nat, eager: bool)
    requires
        0 <= who < pool.locals.len(),
        counts_ordered(pool),
        counted_allocations(pool) <= u64::MAX,
    ensures
        counts_ordered(pool.recycled(who, region, local_buffer_bytes, eager)),
        counted_allocations(pool.recycled(who, region, local_buffer_bytes, eager)) == counted_allocations(pool),
{
    let after = pool.recycled(who, region, local_buffer_bytes, eager);
    lemma_one_counted(pool.locals, after.locals, who);
    law_counter_order_kept_otherwise(pool, who, region, local_buffer_bytes, eager, 0, region, 0, Seq::empty());
}

/// Threads come and go without effect on what was counted.
proof fn lemma_threads_counted(pool: ClassView, thread_id: u64)
    requires
        counts_ordered(pool),
        counted_allocations(pool) <= u64::MAX,
    ensures
        counts_ordered(pool_with_thread(pool, thread_id)),
        counted_allocations(pool_with_thread(pool, thread_id)) == counted_allocations(pool),
        counts_ordered(pool_without_thread(pool, thread_id)),
        counted_allocations(pool_without_thread(pool, thread_id)) == counted_allocations(pool),
{
    if pool.has_thread(thread_id) {
        let who = pool.slot(thread_id);
        lemma_one_left(pool.locals, who);
        law_counter_order_kept_otherwise(pool, who, (0, 0), 0, false, 0, (0, 0), 0, Seq::empty());
    } else {
        let after = pool.with_thread(thread_id);
        assert(after.locals.drop_last() =~= pool.locals);
        assert forall|i: int| 0 <= i < after.locals.len() implies ordered((#[trigger] after.locals[i]).stats) by {
            if i < pool.locals.len() {
                assert(ordered(pool.locals[i].stats));
            }
        }
    }
}

/// Handing a region out, or giving it back, counts no allocation.
proof fn lemma_placed_counted(
    shape: Shape,
    before: Seq<ClassView>,
    after: Seq<ClassView>,
    thread_id: u64,
    settings: Settings,
    region: Region,
    step: Step<Result<Allocation, AllocError>>,
    n: nat,
)
    requires
        registered(before, thread_id),
        is_pool_region(region),
        0 <= pool_index(region.1 as nat) < before.len(),
        region_placed(shape, before, after, thread_id, settings, region, step),
        counters_in_order(before, n),
        n <= u64::MAX,
    ensures
        counters_in_order(after, n),
{
    if region.0 as nat % shape.align != 0 {
        lemma_returned_counted(before, thread_id, settings, region, n);
    }
}

/// The same for a region that a thread gives back.
proof fn lemma_returned_counted(before: Seq<ClassView>, thread_id: u64, settings: Settings, region: Region, n: nat)
    requires
        registered(before, thread_id),
        0 <= pool_index(region.1 as nat) < before.len(),
        counters_in_order(before, n),
        n <= u64::MAX,
    ensures
        counters_in_order(returned(before, thread_id, region, settings), n),
{
    let index = pool_index(region.1 as nat);
    let pool = before[index];
    assert(pool.has_thread(thread_id) && counts_ordered(pool));
    let slot = pool.slot(thread_id);
    lemma_release_counted(pool, slot, region, settings.local_buffer_bytes as nat, settings.eager_return);
    assert forall|i: int| 0 <= i < before.len() implies counts_ordered(
        #[trigger] returned(before, thread_id, region, settings)[i],
    ) && counted_allocations(returned(before, thread_id, region, settings)[i]) <= n by {
        assert(counts_ordered(before[i]));
    }
}

/// Whatever happens, the counters stay in order, and at most one allocation is counted.
pub proof fn law_counter_order_is_kept(before: World, mv: Move, after: World, n: nat)
    requires
        usize::BITS == 64,
        before.in_order(),
        moved(before, mv, after),
        counters_in_order(before.pools, n),
        n < u64::MAX,
    ensures
        counters_in_order(after.pools, n + 1),
{
    let pools = before.pools;
    assert forall|i: int| 0 <= i < pools.len() implies counts_ordered(#[trigger] pools[i]) && counted_allocations(
        pools[i],
    ) <= n + 1 by {}
    match mv {
        Move::Ask { thread_id, settings, shape, capacity, page, step } => {
            let class = class_for(bytes_needed(shape.size, capacity, page));
            if settings.enabled && shape.size > 0 && capacity > 0 && in_valid_range(class as int) {
                let (pool, answer) = choose|pool: ClassView, answer: RefillView| #[trigger]
                    class_answered(shape, pools, after.pools, thread_id, settings, class, pool, answer, step);
                assert(class_answered(shape, pools, after.pools, thread_id, settings, class, pool, answer, step));
                let index = class - VALID_SIZE_CLASS.start;
                assert(pools[index].wf() && pools[index].exponent == class);
                assert(pools[index].has_thread(thread_id));
                let slot = pools[index].slot(thread_id);
                assert(0 <= slot < pools[index].locals.len() && pools[index].locals[slot].thread_id == thread_id);
                let bytes = settings.local_buffer_bytes as nat;
                lemma_allocates(pools[index], pool, slot, answer, bytes, settings.growth_dampener);
                lemma_allocation_counted(pools[index], pool, slot, answer, bytes, settings.growth_dampener);
                let middle = pools.update(index, pool);
                assert(counters_in_order(middle, n + 1));
                if let RefillView::Ready(region) = answer {
                    assert(is_region(region, pow2(class)));
                    law_class_is_unique(class, 0);
                    assert forall|k: int| 0 <= k < middle.len() implies (#[trigger] middle[k]).has_thread(
                        thread_id,
                    ) by {
                        assert(pools[k].has_thread(thread_id));
                        if k == index {
                            assert(pool.locals[slot].thread_id == thread_id);
                        }
                    }
                    lemma_placed_counted(shape, middle, after.pools, thread_id, settings, region, step, n + 1);
                }
            }
        },
        Move::Mapped { thread_id, settings, shape, index, area, step } => {
            let pool = pools[index];
            let middle = pools.update(index, pool.refilled(area));
            let region = regions_of(area, pool.bytes())[0];
            assert(pool.wf() && pool.exponent == index + VALID_SIZE_CLASS.start);
            lemma_refilled(pool, area);
            assert(is_region(region, pow2(pool.exponent)));
            law_class_is_unique(pool.exponent, 0);
            assert forall|k: int| 0 <= k < middle.len() implies (#[trigger] middle[k]).has_thread(thread_id) by {
                assert(pools[k].has_thread(thread_id));
                let slot = pools[k].slot(thread_id);
                assert(middle[k].locals[slot].thread_id == thread_id);
            }
            assert(counters_in_order(middle, n + 1));
            lemma_placed_counted(shape, middle, after.pools, thread_id, settings, region, step, n + 1);
        },
        Move::Release { thread_id, settings, region } => {
            lemma_region_has_pool(region);
            lemma_returned_counted(pools, thread_id, settings, region, n + 1);
        },
        Move::Join { thread_id } => {
            assert forall|i: int| 0 <= i < after.pools.len() implies counts_ordered(#[trigger] after.pools[i])
                && counted_allocations(after.pools[i]) <= n + 1 by {
                lemma_threads_counted(pools[i], thread_id);
            }
        },
        Move::Leave { thread_id } => {
            assert forall|i: int| 0 <= i < after.pools.len() implies counts_ordered(#[trigger] after.pools[i])
                && counted_allocations(after.pools[i]) <= n + 1 by {
                lemma_threads_counted(pools[i], thread_id);
            }
        },
        Move::Share { region } => {
            lemma_region_has_pool(region);
            assert forall|i: int| 0 <= i < after.pools.len() implies counts_ordered(#[trigger] after.pools[i])
                && counted_allocations(after.pools[i]) <= n + 1 by {
                assert(counts_ordered(pools[i]));
            }
        },
        Move::Sweep { .. } | Move::Finish { .. } => {
            assert forall|i: int| 0 <= i < after.pools.len() implies counts_ordered(#[trigger] after.pools[i])
                && counted_allocations(after.pools[i]) <= n + 1 by {
                assert(counts_ordered(pools[i]));
            }
        },
    }
}

/// The counters are in order in every world, and at most one allocation was counted with each move.
proof fn lemma_every_counter_is_in_order(worlds: Seq<World>, moves: Seq<Move>, n: int)
    requires
        usize::BITS == 64,
        history(worlds, moves),
        moves.len() <= u64::MAX,
        0 <= n < worlds.len(),
    ensures
        counters_in_order(worlds[n].pools, n as nat),
    decreases n,
{
    if n > 0 {
        lemma_every_counter_is_in_order(worlds, moves, n - 1);
        law_every_world_is_in_order(worlds, moves, n - 1);
        assert(moved(worlds[n - 1], moves[n - 1], worlds[n - 1 + 1]));
        law_counter_order_is_kept(worlds[n - 1], moves[n - 1], worlds[n], (n - 1) as nat);
    }
}

/// Whatever happened since the pools were new, the statistics show no more refills than allocations on the
/// slow path, and no more of those than allocations, as long as a counter can hold the moves.
pub proof fn law_statistics_stay_ordered(worlds: Seq<World>, moves: Seq<Move>, n: int, i: int)
    requires
        usize::BITS == 64,
        history(worlds, moves),
        moves.len() <= u64::MAX,
        0 <= n < worlds.len(),
        0 <= i < worlds[n].pools.len(),
    ensures
        ({
            let stats = class_stats(worlds[n].pools[i]);
            stats.refill <= stats.slow_path <= stats.allocations
        }),
{
    lemma_every_counter_is_in_order(worlds, moves, n);
    assert(counts_ordered(worlds[n].pools[i]));
    law_statistics_are_ordered(worlds[n].pools[i]);
}

} // verus!
