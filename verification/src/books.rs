//! The ledgers of all pools together: two live allocations share no byte.
use crate::advise::DANGLING;
use crate::allocation::{allocate_outcome, region_placed, Allocation, Shape, Step};
use crate::config::Settings;
use crate::error::AllocError;
use crate::laws::{
    law_allocation_takes_one_region, law_failed_allocation_takes_nothing, law_region_is_placed_or_returned,
};
use crate::ledger::{
    all_disjoint, balanced, disjoint, law_balance_kept_by_refill, law_balance_kept_by_release,
    law_balance_kept_by_sweep, law_balance_kept_by_threads, law_classes_share_no_memory,
    law_memory_is_exclusive, law_new_pool_is_balanced,
};
use crate::model::{empty_class, is_area, is_region, lemma_refilled, regions_of, ClassView, Region};
use crate::pool::{
    cleared, clears_first, is_pool_region, pool_index, pool_with_thread, pool_without_thread, pools_wf,
    registered, returned,
};
use crate::size_class::{in_valid_range, law_class_is_unique, SIZE_CLASS_COUNT, VALID_SIZE_CLASS};
use vstd::arithmetic::power2::pow2;
use vstd::multiset::Multiset;
use vstd::prelude::*;

verus! {

/// What is out of each pool: the regions of live handles, and those that are out to be cleared.
pub type Outs = Seq<Multiset<Region>>;

/// Of each pool, the regions that are free and those that are out are together the regions of its
/// areas.
pub open spec fn books(pools: Seq<ClassView>, outs: Outs) -> bool {
    &&& outs.len() == pools.len()
    &&& forall|i: int| 0 <= i < pools.len() ==> balanced(#[trigger] pools[i], outs[i])
}

/// No two areas of the pools have a byte in common.
pub open spec fn areas_apart(pools: Seq<ClassView>) -> bool {
    &&& forall|i: int| 0 <= i < pools.len() ==> all_disjoint((#[trigger] pools[i]).areas)
    &&& forall|i: int, j: int|
        0 <= i < pools.len() && 0 <= j < pools.len() && i != j ==> share_nothing(
            #[trigger] pools[i],
            #[trigger] pools[j],
        )
}

/// No area of one pool has a byte in common with one of another.
pub open spec fn share_nothing(pool: ClassView, other: ClassView) -> bool {
    forall|k: int, l: int|
        0 <= k < pool.areas.len() && 0 <= l < other.areas.len() ==> disjoint(
            #[trigger] pool.areas[k],
            #[trigger] other.areas[l],
        )
}

/// A new area has no byte in common with the areas of a pool.
pub open spec fn new_to(area: Region, pool: ClassView) -> bool {
    forall|k: int| 0 <= k < pool.areas.len() ==> disjoint(area, #[trigger] pool.areas[k])
}

/// The region is out once more than before.
pub open spec fn taken_out(outs: Outs, region: Region) -> Outs {
    let index = pool_index(region.1 as nat);
    outs.update(index, outs[index].insert(region))
}

/// The region is out once less than before.
pub open spec fn brought_back(outs: Outs, region: Region) -> Outs {
    let index = pool_index(region.1 as nat);
    outs.update(index, outs[index].remove(region))
}

/// Of new pools nothing is out.
pub proof fn law_new_books()
    ensures
        ({
            let pools = Seq::new(
                SIZE_CLASS_COUNT as nat,
                |i: int| empty_class((i + VALID_SIZE_CLASS.start) as nat),
            );
            let outs = Seq::new(SIZE_CLASS_COUNT as nat, |i: int| Multiset::<Region>::empty());
            books(pools, outs) && areas_apart(pools)
        }),
{
    let pools = Seq::new(SIZE_CLASS_COUNT as nat, |i: int| empty_class((i + VALID_SIZE_CLASS.start) as nat));
    let outs = Seq::new(SIZE_CLASS_COUNT as nat, |i: int| Multiset::<Region>::empty());
    assert forall|i: int| 0 <= i < pools.len() implies balanced(#[trigger] pools[i], outs[i]) by {
        law_new_pool_is_balanced((i + VALID_SIZE_CLASS.start) as nat);
    }
}

/// Live memory is exclusive: a region is out once, and two regions that are out share no byte, of the
/// same class or of different ones.
pub proof fn law_live_memory_is_disjoint(pools: Seq<ClassView>, outs: Outs, i: int, a: Region, j: int, b: Region)
    requires
        usize::BITS == 64,
        pools_wf(pools),
        books(pools, outs),
        areas_apart(pools),
        0 <= i < pools.len(),
        0 <= j < pools.len(),
        outs[i].count(a) > 0,
        outs[j].count(b) > 0,
    ensures
        outs[i].count(a) == 1,
        i != j || a != b ==> disjoint(a, b),
{
    assert(pools[i].wf() && pools[j].wf());
    assert(balanced(pools[i], outs[i]) && balanced(pools[j], outs[j]));
    assert(all_disjoint(pools[i].areas));
    law_memory_is_exclusive(pools[i], outs[i], a, b);
    if i != j {
        assert(share_nothing(pools[i], pools[j]));
        law_classes_share_no_memory(pools[i], pools[j], outs[i], outs[j], a, b);
    }
}

/// Pools with the same areas are as far apart.
pub proof fn lemma_same_areas(before: Seq<ClassView>, after: Seq<ClassView>)
    requires
        areas_apart(before),
        after.len() == before.len(),
        forall|i: int| 0 <= i < before.len() ==> (#[trigger] after[i]).areas == before[i].areas,
    ensures
        areas_apart(after),
{
    assert forall|i: int| 0 <= i < after.len() implies all_disjoint((#[trigger] after[i]).areas) by {
        assert(all_disjoint(before[i].areas));
    }
    assert forall|i: int, j: int|
        0 <= i < after.len() && 0 <= j < after.len() && i != j implies share_nothing(
        #[trigger] after[i],
        #[trigger] after[j],
    ) by {
        assert(share_nothing(before[i], before[j]));
    }
}

/// A pool that lost a region: it is out.
proof fn lemma_balance_loses(before: ClassView, after: ClassView, out: Multiset<Region>, region: Region)
    requires
        balanced(before, out),
        after.areas == before.areas,
        after.exponent == before.exponent,
        before.free() == after.free().insert(region),
    ensures
        balanced(after, out.insert(region)),
{
    broadcast use vstd::multiset::group_multiset_axioms;
    assert(after.free().add(out.insert(region)) =~= after.free().insert(region).add(out));
}

/// A region that goes to the shared ones.
pub proof fn lemma_cleared_free(pool: ClassView, region: Region)
    ensures
        (ClassView { global: pool.global.push(region), ..pool }).free() == pool.free().insert(region),
{
    broadcast use {vstd::multiset::group_multiset_axioms, vstd::seq_lib::group_to_multiset_ensures};
    assert((ClassView { global: pool.global.push(region), ..pool }).free() =~= pool.free().insert(region));
}

/// A granted request puts one region out, which shares no byte with any that is out already. Whatever
/// else comes of a request puts nothing out, but for a region that is to be cleared, which is out until
/// it is shared.
pub proof fn law_books_kept_by_allocate(
    shape: Shape,
    before: Seq<ClassView>,
    after: Seq<ClassView>,
    thread_id: u64,
    settings: Settings,
    capacity: usize,
    page: usize,
    step: Step<Result<Allocation, AllocError>>,
    outs: Outs,
)
    requires
        usize::BITS == 64,
        pools_wf(before),
        pools_wf(after),
        registered(before, thread_id),
        allocate_outcome(shape, before, after, thread_id, settings, capacity, page, step),
        books(before, outs),
        areas_apart(before),
    ensures
        areas_apart(after),
        match step {
            Step::Done(Ok((_, _, handle))) => if handle@.0 == DANGLING {
                books(after, outs)
            } else {
                &&& books(after, taken_out(outs, handle@))
                &&& forall|j: int, b: Region|
                    0 <= j < outs.len() && #[trigger] outs[j].count(b) > 0 ==> disjoint(handle@, b)
            },
            Step::Clear(handle, _) => {
                &&& books(after, taken_out(outs, handle@))
                &&& books(cleared(after, handle@), outs)
            },
            _ => books(after, outs),
        },
{
    law_allocation_takes_one_region(shape, before, after, thread_id, settings, capacity, page, step);
    match step {
        Step::Done(Ok((_, _, handle))) => {
            if handle@.0 != DANGLING {
                let index = pool_index(handle@.1 as nat);
                lemma_granted(before, after, outs, index, handle@);
            }
        },
        Step::Clear(handle, _) => {
            law_failed_allocation_takes_nothing(shape, before, after, thread_id, settings, capacity, page, step, 0);
            let shared = cleared(after, handle@);
            assert forall|i: int| 0 <= i < before.len() implies #[trigger] shared[i].free() == before[i].free()
                && shared[i].areas == before[i].areas by {
                law_failed_allocation_takes_nothing(
                    shape,
                    before,
                    after,
                    thread_id,
                    settings,
                    capacity,
                    page,
                    step,
                    i,
                );
            }
            lemma_to_be_cleared(before, after, outs, handle@);
        },
        _ => {
            assert forall|i: int| 0 <= i < before.len() implies (#[trigger] after[i]).free() == before[i].free()
                && after[i].areas == before[i].areas by {
                law_failed_allocation_takes_nothing(
                    shape,
                    before,
                    after,
                    thread_id,
                    settings,
                    capacity,
                    page,
                    step,
                    i,
                );
            }
            lemma_nothing_out(before, after, outs);
        },
    }
}

/// One pool lost a region, which is out now.
proof fn lemma_granted(before: Seq<ClassView>, after: Seq<ClassView>, outs: Outs, index: int, region: Region)
    requires
        usize::BITS == 64,
        pools_wf(before),
        pools_wf(after),
        books(before, outs),
        areas_apart(before),
        index == pool_index(region.1 as nat),
        0 <= index < before.len(),
        after == before.update(index, after[index]),
        before[index].free() == after[index].free().insert(region),
        after[index].areas == before[index].areas,
    ensures
        books(after, taken_out(outs, region)),
        areas_apart(after),
        forall|j: int, b: Region|
            0 <= j < outs.len() && #[trigger] outs[j].count(b) > 0 ==> disjoint(region, b),
{
    broadcast use vstd::multiset::group_multiset_axioms;
    let next = taken_out(outs, region);
    assert(balanced(before[index], outs[index]));
    assert(before[index].exponent == index + VALID_SIZE_CLASS.start);
    assert(after[index].exponent == index + VALID_SIZE_CLASS.start);
    lemma_balance_loses(before[index], after[index], outs[index], region);
    assert forall|i: int| 0 <= i < after.len() implies balanced(#[trigger] after[i], next[i]) by {
        if i != index {
            assert(balanced(before[i], outs[i]));
        }
    }
    lemma_same_areas(before, after);
    assert forall|j: int, b: Region|
        0 <= j < outs.len() && #[trigger] outs[j].count(b) > 0 implies disjoint(region, b) by {
        assert(next[index].count(region) > 0);
        assert(next[j].count(b) > 0);
        law_live_memory_is_disjoint(after, next, index, region, j, b);
        if j == index && b == region {
            assert(next[index].count(region) == outs[index].count(region) + 1);
        }
    }
}

/// Nothing went out.
proof fn lemma_nothing_out(before: Seq<ClassView>, after: Seq<ClassView>, outs: Outs)
    requires
        pools_wf(before),
        pools_wf(after),
        books(before, outs),
        areas_apart(before),
        forall|i: int|
            0 <= i < before.len() ==> (#[trigger] after[i]).free() == before[i].free() && after[i].areas
                == before[i].areas,
    ensures
        books(after, outs),
        areas_apart(after),
{
    assert forall|i: int| 0 <= i < after.len() implies balanced(#[trigger] after[i], outs[i]) by {
        assert(balanced(before[i], outs[i]));
        assert(before[i].exponent == i + VALID_SIZE_CLASS.start);
        assert(after[i].exponent == i + VALID_SIZE_CLASS.start);
    }
    lemma_same_areas(before, after);
}

/// A region that is to be cleared is out, and back once it is shared.
proof fn lemma_to_be_cleared(before: Seq<ClassView>, after: Seq<ClassView>, outs: Outs, region: Region)
    requires
        pools_wf(before),
        pools_wf(after),
        books(before, outs),
        areas_apart(before),
        forall|i: int|
            0 <= i < before.len() ==> #[trigger] cleared(after, region)[i].free() == before[i].free() && cleared(
                after,
                region,
            )[i].areas == before[i].areas,
        0 <= pool_index(region.1 as nat) < before.len(),
    ensures
        books(after, taken_out(outs, region)),
        books(cleared(after, region), outs),
        areas_apart(after),
{
    let index = pool_index(region.1 as nat);
    let shared = cleared(after, region);
    let next = taken_out(outs, region);
    lemma_cleared_free(after[index], region);
    assert forall|i: int| 0 <= i < before.len() implies balanced(#[trigger] shared[i], outs[i]) && balanced(
        after[i],
        next[i],
    ) by {
        assert(balanced(before[i], outs[i]));
        assert(before[i].exponent == i + VALID_SIZE_CLASS.start);
        assert(after[i].exponent == i + VALID_SIZE_CLASS.start);
        assert(shared[i].free() == before[i].free());
        if i == index {
            lemma_balance_loses(before[i], after[i], outs[i], region);
        }
    }
    assert forall|i: int| 0 <= i < after.len() implies balanced(#[trigger] after[i], next[i]) by {
        assert(balanced(shared[i], outs[i]));
    }
    assert forall|i: int| 0 <= i < before.len() implies (#[trigger] after[i]).areas == before[i].areas by {
        assert(shared[i].free() == before[i].free());
    }
    lemma_same_areas(before, after);
}

/// The same for a request for which an area was mapped, where the system gave memory that is not in
/// use.
pub proof fn law_books_kept_by_mapped_allocation(
    shape: Shape,
    before: Seq<ClassView>,
    after: Seq<ClassView>,
    thread_id: u64,
    settings: Settings,
    index: int,
    area: Region,
    step: Step<Result<Allocation, AllocError>>,
    outs: Outs,
)
    requires
        usize::BITS == 64,
        pools_wf(before),
        pools_wf(after),
        registered(before, thread_id),
        0 <= index < before.len(),
        is_area(area, before[index].bytes()),
        forall|i: int| 0 <= i < before.len() ==> new_to(area, #[trigger] before[i]),
        region_placed(
            shape,
            before.update(index, before[index].refilled(area)),
            after,
            thread_id,
            settings,
            regions_of(area, before[index].bytes())[0],
            step,
        ),
        books(before, outs),
        areas_apart(before),
    ensures
        areas_apart(after),
        match step {
            Step::Done(Ok((_, _, handle))) => {
                &&& books(after, taken_out(outs, handle@))
                &&& forall|j: int, b: Region|
                    0 <= j < outs.len() && #[trigger] outs[j].count(b) > 0 ==> disjoint(handle@, b)
            },
            Step::Clear(handle, _) => {
                &&& books(after, taken_out(outs, handle@))
                &&& books(cleared(after, handle@), outs)
            },
            _ => books(after, outs),
        },
{
    broadcast use vstd::multiset::group_multiset_axioms;
    let pool = before[index];
    let refilled = pool.refilled(area);
    let middle = before.update(index, refilled);
    let region = regions_of(area, pool.bytes())[0];
    let next = taken_out(outs, region);
    assert(pool.wf() && pool.exponent == index + VALID_SIZE_CLASS.start);
    assert(balanced(pool, outs[index]));
    lemma_refilled(pool, area);
    law_balance_kept_by_refill(pool, area, outs[index]);
    assert(is_region(region, pow2(pool.exponent)));
    law_class_is_unique(pool.exponent, 0);
    assert(pool_index(region.1 as nat) == index);
    assert forall|k: int| 0 <= k < middle.len() implies (#[trigger] middle[k]).wf() && middle[k].exponent == k
        + VALID_SIZE_CLASS.start && middle[k].has_thread(thread_id) by {
        assert(before[k].wf() && before[k].has_thread(thread_id));
        if k == index {
            let slot = pool.slot(thread_id);
            assert(refilled.locals[slot].thread_id == thread_id);
        }
    }
    assert forall|i: int| 0 <= i < middle.len() implies balanced(#[trigger] middle[i], next[i]) by {
        assert(balanced(before[i], outs[i]));
    }
    lemma_area_added(before, index, area);
    law_region_is_placed_or_returned(shape, middle, after, thread_id, settings, region, step);
    match step {
        Step::Done(Ok((_, _, handle))) => {
            assert forall|j: int, b: Region|
                0 <= j < outs.len() && #[trigger] outs[j].count(b) > 0 implies disjoint(handle@, b) by {
                assert(next[index].count(region) > 0);
                assert(next[j].count(b) > 0);
                law_live_memory_is_disjoint(middle, next, index, region, j, b);
                if j == index && b == region {
                    assert(next[index].count(region) == outs[index].count(region) + 1);
                }
            }
        },
        Step::Clear(handle, _) => {
            let shared = cleared(after, region);
            lemma_cleared_free(after[index], region);
            lemma_balance_gains(middle[index], shared[index], next[index], region);
            assert(next[index].remove(region) =~= outs[index]);
            assert forall|i: int| 0 <= i < shared.len() implies balanced(#[trigger] shared[i], outs[i]) by {
                assert(balanced(middle[i], next[i]));
            }
            assert forall|i: int| 0 <= i < middle.len() implies (#[trigger] after[i]).areas == middle[i].areas by {
                assert(shared[i].areas == middle[i].areas);
            }
            lemma_same_areas(middle, after);
            lemma_balance_loses(shared[index], after[index], outs[index], region);
            assert forall|i: int| 0 <= i < after.len() implies balanced(#[trigger] after[i], next[i]) by {
                assert(balanced(shared[i], outs[i]));
            }
        },
        _ => {
            lemma_balance_gains(middle[index], after[index], next[index], region);
            assert(next[index].remove(region) =~= outs[index]);
            assert forall|i: int| 0 <= i < after.len() implies balanced(#[trigger] after[i], outs[i]) by {
                assert(balanced(middle[i], next[i]));
            }
            lemma_same_areas(middle, after);
        },
    }
}

/// A pool that got a region back: it is no longer out.
pub proof fn lemma_balance_gains(before: ClassView, after: ClassView, out: Multiset<Region>, region: Region)
    requires
        balanced(before, out),
        out.count(region) > 0,
        after.areas == before.areas,
        after.exponent == before.exponent,
        after.free() == before.free().insert(region),
    ensures
        balanced(after, out.remove(region)),
{
    broadcast use vstd::multiset::group_multiset_axioms;
    assert(after.free().add(out.remove(region)) =~= before.free().add(out));
}

/// An area that is new to all pools keeps the areas apart.
proof fn lemma_area_added(before: Seq<ClassView>, index: int, area: Region)
    requires
        areas_apart(before),
        0 <= index < before.len(),
        forall|i: int| 0 <= i < before.len() ==> new_to(area, #[trigger] before[i]),
    ensures
        areas_apart(before.update(index, before[index].refilled(area))),
{
    let pool = before[index];
    let refilled = pool.refilled(area);
    let after = before.update(index, refilled);
    assert(new_to(area, pool));
    assert forall|i: int| 0 <= i < after.len() implies all_disjoint((#[trigger] after[i]).areas) by {
        assert(all_disjoint(before[i].areas));
        if i == index {
            assert forall|k: int, l: int| 0 <= k < l < refilled.areas.len() implies disjoint(
                #[trigger] refilled.areas[k],
                #[trigger] refilled.areas[l],
            ) by {
                if l == pool.areas.len() {
                    assert(disjoint(area, pool.areas[k]));
                } else {
                    assert(disjoint(pool.areas[k], pool.areas[l]));
                }
            }
        }
    }
    assert forall|i: int, j: int|
        0 <= i < after.len() && 0 <= j < after.len() && i != j implies share_nothing(
        #[trigger] after[i],
        #[trigger] after[j],
    ) by {
        assert(share_nothing(before[i], before[j]));
        assert(new_to(area, before[i]) && new_to(area, before[j]));
        assert forall|k: int, l: int|
            0 <= k < after[i].areas.len() && 0 <= l < after[j].areas.len() implies disjoint(
            #[trigger] after[i].areas[k],
            #[trigger] after[j].areas[l],
        ) by {
            if i == index && k == pool.areas.len() {
                assert(disjoint(area, before[j].areas[l]));
            } else if j == index && l == pool.areas.len() {
                assert(disjoint(area, before[i].areas[k]));
            } else {
                assert(disjoint(before[i].areas[k], before[j].areas[l]));
            }
        }
    }
}

/// A region that a thread gives back is no longer out; where it is cleared first, it is out until
/// then.
pub proof fn law_books_kept_by_release(
    before: Seq<ClassView>,
    thread_id: u64,
    settings: Settings,
    region: Region,
    outs: Outs,
)
    requires
        pools_wf(before),
        registered(before, thread_id),
        is_pool_region(region),
        books(before, outs),
        areas_apart(before),
        outs[pool_index(region.1 as nat)].count(region) > 0,
    ensures
        ({
            let after = returned(before, thread_id, region, settings);
            &&& areas_apart(after)
            &&& if clears_first(before, thread_id, region, settings) {
                &&& books(after, outs)
                &&& books(cleared(after, region), brought_back(outs, region))
                &&& areas_apart(cleared(after, region))
            } else {
                books(after, brought_back(outs, region))
            }
        }),
{
    let class = choose|class: nat| in_valid_range(class as int) && is_region(region, #[trigger] pow2(class));
    law_class_is_unique(class, 0);
    let index = pool_index(region.1 as nat);
    let pool = before[index];
    assert(pool.wf() && pool.exponent == class);
    assert(pool.has_thread(thread_id));
    let slot = pool.slot(thread_id);
    assert(0 <= slot < pool.locals.len() && pool.locals[slot].thread_id == thread_id);
    assert(balanced(pool, outs[index]));
    law_balance_kept_by_release(
        pool,
        slot,
        region,
        settings.local_buffer_bytes as nat,
        settings.eager_return,
        outs[index],
    );
    let after = returned(before, thread_id, region, settings);
    let shared = cleared(after, region);
    let next = brought_back(outs, region);
    lemma_same_areas(before, after);
    lemma_same_areas(before, shared);
    if clears_first(before, thread_id, region, settings) {
        assert forall|i: int| 0 <= i < after.len() implies balanced(#[trigger] after[i], outs[i]) by {
            assert(balanced(before[i], outs[i]));
        }
        assert forall|i: int| 0 <= i < shared.len() implies balanced(#[trigger] shared[i], next[i]) by {
            assert(balanced(before[i], outs[i]));
        }
    } else {
        assert forall|i: int| 0 <= i < after.len() implies balanced(#[trigger] after[i], next[i]) by {
            assert(balanced(before[i], outs[i]));
        }
    }
}

/// Threads come and go without effect on what is out.
pub proof fn law_books_kept_by_threads(before: Seq<ClassView>, thread_id: u64, outs: Outs)
    requires
        pools_wf(before),
        books(before, outs),
        areas_apart(before),
    ensures
        books(before.map_values(|pool: ClassView| pool_with_thread(pool, thread_id)), outs),
        areas_apart(before.map_values(|pool: ClassView| pool_with_thread(pool, thread_id))),
        books(before.map_values(|pool: ClassView| pool_without_thread(pool, thread_id)), outs),
        areas_apart(before.map_values(|pool: ClassView| pool_without_thread(pool, thread_id))),
{
    let joined = before.map_values(|pool: ClassView| pool_with_thread(pool, thread_id));
    let left = before.map_values(|pool: ClassView| pool_without_thread(pool, thread_id));
    assert forall|i: int| 0 <= i < before.len() implies balanced(#[trigger] joined[i], outs[i]) by {
        assert(before[i].wf() && balanced(before[i], outs[i]));
        law_balance_kept_by_threads(before[i], 0, thread_id, outs[i]);
    }
    assert forall|i: int| 0 <= i < before.len() implies balanced(#[trigger] left[i], outs[i]) by {
        let pool = before[i];
        assert(pool.wf() && balanced(pool, outs[i]));
        let slot = pool.slot(thread_id);
        law_balance_kept_by_threads(pool, slot, thread_id, outs[i]);
        if pool.has_thread(thread_id) {
            assert(0 <= slot < pool.locals.len());
        }
    }
    lemma_same_areas(before, joined);
    lemma_same_areas(before, left);
}

/// Regions that a tick takes are out until it is over.
pub proof fn law_books_kept_by_sweep(before: Seq<ClassView>, index: int, taken: nat, outs: Outs)
    requires
        pools_wf(before),
        books(before, outs),
        areas_apart(before),
        0 <= index < before.len(),
        taken <= before[index].global.len(),
    ensures
        ({
            let batch = before[index].global.subrange(0, taken as int);
            let swept = before[index].swept(taken);
            let during = before.update(index, swept);
            let after = before.update(index, swept.cleaned(batch));
            &&& books(during, outs.update(index, outs[index].add(batch.to_multiset())))
            &&& books(after, outs)
            &&& areas_apart(during)
            &&& areas_apart(after)
        }),
{
    let batch = before[index].global.subrange(0, taken as int);
    let swept = before[index].swept(taken);
    let during = before.update(index, swept);
    let after = before.update(index, swept.cleaned(batch));
    let next = outs.update(index, outs[index].add(batch.to_multiset()));
    assert(before[index].wf() && balanced(before[index], outs[index]));
    law_balance_kept_by_sweep(before[index], taken, outs[index]);
    assert forall|i: int| 0 <= i < during.len() implies balanced(#[trigger] during[i], next[i]) by {
        assert(balanced(before[i], outs[i]));
    }
    assert forall|i: int| 0 <= i < after.len() implies balanced(#[trigger] after[i], outs[i]) by {
        assert(balanced(before[i], outs[i]));
    }
    lemma_same_areas(before, during);
    lemma_same_areas(before, after);
}

} // verus!
