//! All that can happen to the pools, one thing after the other.
use crate::advise::DANGLING;
use crate::allocation::{allocate_outcome, region_placed, Allocation, Shape, Step};
use crate::books::{
    areas_apart, books, brought_back, law_books_kept_by_allocate, law_books_kept_by_mapped_allocation,
    law_books_kept_by_release, law_books_kept_by_sweep, law_books_kept_by_threads,
    law_live_memory_is_disjoint, law_new_books, lemma_balance_gains, lemma_cleared_free, lemma_same_areas,
    new_to, taken_out, Outs,
};
use crate::class_state::{handle_views, Sweep};
use crate::config::Settings;
use crate::error::AllocError;
use crate::laws::{
    in_use, law_allocation_takes_one_region, law_failed_allocation_takes_nothing,
    law_statistics_show_what_is_out,
};
use crate::ledger::{all_disjoint, balanced, disjoint};
use crate::model::{
    all_regions, area_bytes, empty_class, is_area, is_region, lemma_cleaned, lemma_refilled, regions_of,
    ClassView, Region,
};
use crate::pool::{
    cleared, clears_first, is_pool_region, pool_index, pool_with_thread, pool_without_thread, pools_wf,
    registered, returned, swept_from,
};
use crate::size_class::{in_valid_range, law_class_is_unique, SIZE_CLASS_COUNT, VALID_SIZE_CLASS};
use crate::stats::class_stats;
use vstd::arithmetic::power2::pow2;
use vstd::multiset::Multiset;
use vstd::prelude::*;

verus! {

/// The pools, and what is out of each of them.
pub struct World {
    /// The pools.
    pub pools: Seq<ClassView>,
    /// The regions of live handles, and those that are out to be cleared.
    pub outs: Outs,
}

impl World {
    /// Each pool is in order, what is free and what is out are together its memory, and no two areas
    /// have a byte in common.
    pub open spec fn in_order(self) -> bool {
        &&& pools_wf(self.pools)
        &&& books(self.pools, self.outs)
        &&& areas_apart(self.pools)
    }
}

/// New pools, of which nothing is out.
pub open spec fn new_world() -> World {
    World {
        pools: Seq::new(SIZE_CLASS_COUNT as nat, |i: int| empty_class((i + VALID_SIZE_CLASS.start) as nat)),
        outs: Seq::new(SIZE_CLASS_COUNT as nat, |i: int| Multiset::<Region>::empty()),
    }
}

/// One thing that happens to the pools.
pub enum Move {
    /// A thread comes, by [`crate::ThreadLocalStealer::new`].
    Join { thread_id: u64 },
    /// A thread ends, by [`crate::ThreadLocalStealer::retire`].
    Leave { thread_id: u64 },
    /// A thread asks for memory, by [`crate::allocate`].
    Ask {
        thread_id: u64,
        settings: Settings,
        shape: Shape,
        capacity: usize,
        page: usize,
        step: Step<Result<Allocation, AllocError>>,
    },
    /// The area that a request needed was mapped, for [`crate::allocate_mapped`].
    Mapped {
        thread_id: u64,
        settings: Settings,
        shape: Shape,
        index: int,
        area: Region,
        step: Step<Result<Allocation, AllocError>>,
    },
    /// A thread gives memory back, by [`crate::ThreadLocalStealer::release`].
    Release { thread_id: u64, settings: Settings, region: Region },
    /// A region that had to be cleared is shared, by [`crate::GlobalStealer::return_cleared`].
    Share { region: Region },
    /// The background worker takes regions, by [`crate::GlobalStealer::begin_sweep`] or
    /// [`crate::GlobalStealer::resume_sweep`].
    Sweep { index: int, limit: nat, sweep: Sweep },
    /// The background worker brings regions back, by [`crate::GlobalStealer::finish_sweep`].
    Finish { index: int, regions: Seq<Region> },
}

/// What is out after a request came to `step`.
pub open spec fn outs_after(outs: Outs, step: Step<Result<Allocation, AllocError>>) -> Outs {
    match step {
        Step::Done(Ok((_, _, handle))) => if handle@.0 == DANGLING {
            outs
        } else {
            taken_out(outs, handle@)
        },
        Step::Clear(handle, _) => taken_out(outs, handle@),
        _ => outs,
    }
}

/// One thing happened. Only what is out comes back, and the system maps only memory that is not in use.
pub open spec fn moved(before: World, mv: Move, after: World) -> bool {
    &&& pools_wf(after.pools)
    &&& match mv {
        Move::Join { thread_id } => {
            &&& after.pools == before.pools.map_values(|pool: ClassView| pool_with_thread(pool, thread_id))
            &&& after.outs == before.outs
        },
        Move::Leave { thread_id } => {
            &&& after.pools == before.pools.map_values(|pool: ClassView| pool_without_thread(pool, thread_id))
            &&& after.outs == before.outs
        },
        Move::Ask { thread_id, settings, shape, capacity, page, step } => {
            &&& registered(before.pools, thread_id)
            &&& allocate_outcome(shape, before.pools, after.pools, thread_id, settings, capacity, page, step)
            &&& after.outs == outs_after(before.outs, step)
        },
        Move::Mapped { thread_id, settings, shape, index, area, step } => {
            &&& registered(before.pools, thread_id)
            &&& 0 <= index < before.pools.len()
            &&& is_area(area, before.pools[index].bytes())
            &&& forall|i: int| 0 <= i < before.pools.len() ==> new_to(area, #[trigger] before.pools[i])
            &&& region_placed(
                shape,
                before.pools.update(index, before.pools[index].refilled(area)),
                after.pools,
                thread_id,
                settings,
                regions_of(area, before.pools[index].bytes())[0],
                step,
            )
            &&& after.outs == outs_after(before.outs, step)
        },
        Move::Release { thread_id, settings, region } => {
            &&& registered(before.pools, thread_id)
            &&& is_pool_region(region)
            &&& before.outs[pool_index(region.1 as nat)].count(region) > 0
            &&& after.pools == returned(before.pools, thread_id, region, settings)
            &&& after.outs == if clears_first(before.pools, thread_id, region, settings) {
                before.outs
            } else {
                brought_back(before.outs, region)
            }
        },
        Move::Share { region } => {
            &&& is_pool_region(region)
            &&& before.outs[pool_index(region.1 as nat)].count(region) > 0
            &&& after.pools == cleared(before.pools, region)
            &&& after.outs == brought_back(before.outs, region)
        },
        Move::Sweep { index, limit, sweep } => {
            &&& 0 <= index < before.pools.len()
            &&& swept_from(before.pools[index], limit, sweep)
            &&& after.pools == before.pools.update(index, before.pools[index].swept(sweep.regions@.len()))
            &&& after.outs == before.outs.update(
                index,
                before.outs[index].add(handle_views(sweep.regions@).to_multiset()),
            )
        },
        Move::Finish { index, regions } => {
            &&& 0 <= index < before.pools.len()
            &&& all_regions(regions, before.pools[index].bytes())
            &&& regions.to_multiset().subset_of(before.outs[index])
            &&& after.pools == before.pools.update(index, before.pools[index].cleaned(regions))
            &&& after.outs == before.outs.update(index, before.outs[index].sub(regions.to_multiset()))
        },
    }
}

/// The worlds that some moves go through, from new pools on.
pub open spec fn history(worlds: Seq<World>, moves: Seq<Move>) -> bool {
    &&& worlds.len() == moves.len() + 1
    &&& worlds[0] == new_world()
    &&& forall|n: int| 0 <= n < moves.len() ==> moved(worlds[n], #[trigger] moves[n], worlds[n + 1])
}

/// Whatever happens, the pools stay in order.
pub proof fn law_order_is_kept(before: World, mv: Move, after: World)
    requires
        usize::BITS == 64,
        before.in_order(),
        moved(before, mv, after),
    ensures
        after.in_order(),
{
    let pools = before.pools;
    let outs = before.outs;
    match mv {
        Move::Join { thread_id } => {
            law_books_kept_by_threads(pools, thread_id, outs);
        },
        Move::Leave { thread_id } => {
            law_books_kept_by_threads(pools, thread_id, outs);
        },
        Move::Ask { thread_id, settings, shape, capacity, page, step } => {
            law_books_kept_by_allocate(
                shape,
                pools,
                after.pools,
                thread_id,
                settings,
                capacity,
                page,
                step,
                outs,
            );
        },
        Move::Mapped { thread_id, settings, shape, index, area, step } => {
            law_books_kept_by_mapped_allocation(
                shape,
                pools,
                after.pools,
                thread_id,
                settings,
                index,
                area,
                step,
                outs,
            );
            lemma_mapped_is_memory(before, mv, after);
        },
        Move::Release { thread_id, settings, region } => {
            law_books_kept_by_release(pools, thread_id, settings, region, outs);
        },
        Move::Share { region } => {
            lemma_share_keeps_order(before, region, after);
        },
        Move::Sweep { index, limit, sweep } => {
            law_books_kept_by_sweep(pools, index, sweep.regions@.len(), outs);
        },
        Move::Finish { index, regions } => {
            lemma_finish_keeps_order(before, index, regions, after);
        },
    }
}

/// What is handed out of an area that was mapped is no dangling region.
proof fn lemma_mapped_is_memory(before: World, mv: Move, after: World)
    requires
        usize::BITS == 64,
        before.in_order(),
        moved(before, mv, after),
    ensures
        mv matches Move::Mapped { step: Step::Done(Ok((_, _, handle))), .. } ==> handle@.0 != DANGLING,
{
    if let Move::Mapped { index, area, .. } = mv {
        let pool = before.pools[index];
        assert(pool.wf());
        lemma_refilled(pool, area);
    }
}

/// A region that had to be cleared is free once it is shared.
proof fn lemma_share_keeps_order(before: World, region: Region, after: World)
    requires
        before.in_order(),
        moved(before, Move::Share { region }, after),
    ensures
        after.in_order(),
{
    let index = pool_index(region.1 as nat);
    lemma_region_has_pool(region);
    assert(balanced(before.pools[index], before.outs[index]));
    lemma_cleared_free(before.pools[index], region);
    lemma_balance_gains(before.pools[index], after.pools[index], before.outs[index], region);
    assert forall|i: int| 0 <= i < after.pools.len() implies balanced(#[trigger] after.pools[i], after.outs[i]) by {
        assert(balanced(before.pools[i], before.outs[i]));
    }
    lemma_same_areas(before.pools, after.pools);
}

/// The pool of a region.
pub proof fn lemma_region_has_pool(region: Region)
    requires
        is_pool_region(region),
    ensures
        0 <= pool_index(region.1 as nat) < SIZE_CLASS_COUNT,
{
    let class = choose|class: nat| in_valid_range(class as int) && is_region(region, #[trigger] pow2(class));
    law_class_is_unique(class, 0);
}

/// Regions that were out to be cleared are free once they are brought back.
proof fn lemma_finish_keeps_order(before: World, index: int, regions: Seq<Region>, after: World)
    requires
        before.in_order(),
        moved(before, Move::Finish { index, regions }, after),
    ensures
        after.in_order(),
{
    broadcast use vstd::multiset::group_multiset_axioms;
    let pool = before.pools[index];
    let out = before.outs[index];
    let batch = regions.to_multiset();
    assert(pool.wf() && balanced(pool, out));
    lemma_cleaned(pool, regions);
    assert(pool.cleaned(regions).free().add(out.sub(batch)) =~= pool.free().add(out));
    assert forall|i: int| 0 <= i < after.pools.len() implies balanced(#[trigger] after.pools[i], after.outs[i]) by {
        assert(balanced(before.pools[i], before.outs[i]));
    }
    lemma_same_areas(before.pools, after.pools);
}

/// After any number of moves from new pools on, the pools are in order.
pub proof fn law_every_world_is_in_order(worlds: Seq<World>, moves: Seq<Move>, n: int)
    requires
        usize::BITS == 64,
        history(worlds, moves),
        0 <= n < worlds.len(),
    ensures
        worlds[n].in_order(),
    decreases n,
{
    if n == 0 {
        law_new_books();
        let pools = new_world().pools;
        assert forall|i: int| 0 <= i < pools.len() implies (#[trigger] pools[i]).wf() && pools[i].exponent == i
            + VALID_SIZE_CLASS.start by {
            assert(in_valid_range(i + VALID_SIZE_CLASS.start));
            vstd::arithmetic::div_mod::lemma_small_mod(0, usize::MAX as nat + 1);
        }
    } else {
        law_every_world_is_in_order(worlds, moves, n - 1);
        assert(moved(worlds[n - 1], moves[n - 1], worlds[n - 1 + 1]));
        law_order_is_kept(worlds[n - 1], moves[n - 1], worlds[n]);
    }
}

/// Live memory is exclusive, whatever happened since the pools were new: a region is out once, and two
/// regions that are out share no byte.
pub proof fn law_memory_is_never_shared(
    worlds: Seq<World>,
    moves: Seq<Move>,
    n: int,
    i: int,
    a: Region,
    j: int,
    b: Region,
)
    requires
        usize::BITS == 64,
        history(worlds, moves),
        0 <= n < worlds.len(),
        0 <= i < worlds[n].outs.len(),
        0 <= j < worlds[n].outs.len(),
        worlds[n].outs[i].count(a) > 0,
        worlds[n].outs[j].count(b) > 0,
    ensures
        worlds[n].outs[i].count(a) == 1,
        i != j || a != b ==> disjoint(a, b),
{
    law_every_world_is_in_order(worlds, moves, n);
    law_live_memory_is_disjoint(worlds[n].pools, worlds[n].outs, i, a, j, b);
}

/// A granted request gets memory that shares no byte with any that is out already.
pub proof fn law_granted_memory_is_new(worlds: Seq<World>, moves: Seq<Move>, n: int, j: int, b: Region)
    requires
        usize::BITS == 64,
        history(worlds, moves),
        0 <= n < moves.len(),
        0 <= j < worlds[n].outs.len(),
        worlds[n].outs[j].count(b) > 0,
    ensures
        answer(moves[n]) matches Some(Step::Done(Ok((_, _, handle)))) ==> handle@.0 != DANGLING ==> disjoint(
            handle@,
            b,
        ),
{
    let before = worlds[n];
    let after = worlds[n + 1];
    law_every_world_is_in_order(worlds, moves, n);
    assert(moved(before, moves[n], after));
    match moves[n] {
        Move::Ask { thread_id, settings, shape, capacity, page, step } => {
            law_books_kept_by_allocate(
                shape,
                before.pools,
                after.pools,
                thread_id,
                settings,
                capacity,
                page,
                step,
                before.outs,
            );
        },
        Move::Mapped { thread_id, settings, shape, index, area, step } => {
            law_books_kept_by_mapped_allocation(
                shape,
                before.pools,
                after.pools,
                thread_id,
                settings,
                index,
                area,
                step,
                before.outs,
            );
        },
        _ => {},
    }
}

/// The answer to a request, if the move is one.
pub open spec fn answer(mv: Move) -> Option<Step<Result<Allocation, AllocError>>> {
    match mv {
        Move::Ask { step, .. } => Some(step),
        Move::Mapped { step, .. } => Some(step),
        _ => None,
    }
}

/// What the statistics show as in use is what is out, in every world.
pub proof fn law_statistics_are_true(worlds: Seq<World>, moves: Seq<Move>, n: int, i: int)
    requires
        usize::BITS == 64,
        history(worlds, moves),
        0 <= n < worlds.len(),
        0 <= i < worlds[n].pools.len(),
    ensures
        in_use(class_stats(worlds[n].pools[i]), worlds[n].pools[i].bytes()) == worlds[n].outs[i].len(),
        class_stats(worlds[n].pools[i]).free_regions == worlds[n].pools[i].free().len(),
        class_stats(worlds[n].pools[i]).area_total_bytes == area_bytes(worlds[n].pools[i].areas),
{
    law_every_world_is_in_order(worlds, moves, n);
    let world = worlds[n];
    assert(world.pools[i].wf() && balanced(world.pools[i], world.outs[i]));
    assert(all_disjoint(world.pools[i].areas));
    law_statistics_show_what_is_out(world.pools[i], world.outs[i]);
}

/// A refused request leaves the regions in use as they were, in every class, as the statistics show them;
/// a granted one adds exactly one, in its own class. A region that is to be cleared is in use until it is
/// shared.
pub proof fn law_statistics_show_requests(worlds: Seq<World>, moves: Seq<Move>, n: int, i: int)
    requires
        usize::BITS == 64,
        history(worlds, moves),
        0 <= n < moves.len(),
        0 <= i < worlds[n].pools.len(),
    ensures
        ({
            let before = in_use(class_stats(worlds[n].pools[i]), worlds[n].pools[i].bytes());
            let after = in_use(class_stats(worlds[n + 1].pools[i]), worlds[n + 1].pools[i].bytes());
            match answer(moves[n]) {
                Some(Step::Done(Ok((_, _, handle)))) => after == before + if handle@.0 != DANGLING && i
                    == pool_index(handle@.1 as nat) {
                    1int
                } else {
                    0int
                },
                Some(Step::Clear(handle, result)) => {
                    &&& result is Err
                    &&& after == before + if i == pool_index(handle@.1 as nat) {
                        1int
                    } else {
                        0int
                    }
                },
                Some(_) => after == before,
                None => moves[n] matches Move::Share { region } ==> after == before - if i == pool_index(
                    region.1 as nat,
                ) {
                    1int
                } else {
                    0int
                },
            }
        }),
{
    broadcast use vstd::multiset::group_multiset_axioms;
    let before = worlds[n];
    let after = worlds[n + 1];
    law_every_world_is_in_order(worlds, moves, n);
    law_every_world_is_in_order(worlds, moves, n + 1);
    law_statistics_are_true(worlds, moves, n, i);
    law_statistics_are_true(worlds, moves, n + 1, i);
    assert(moved(before, moves[n], after));
    match moves[n] {
        Move::Ask { thread_id, settings, shape, capacity, page, step } => {
            law_allocation_takes_one_region(
                shape,
                before.pools,
                after.pools,
                thread_id,
                settings,
                capacity,
                page,
                step,
            );
            law_failed_allocation_takes_nothing(
                shape,
                before.pools,
                after.pools,
                thread_id,
                settings,
                capacity,
                page,
                step,
                i,
            );
        },
        Move::Mapped { thread_id, settings, shape, index, area, step } => {
            let pool = before.pools[index];
            assert(pool.wf());
            lemma_refilled(pool, area);
            law_class_is_unique(pool.exponent, 0);
        },
        Move::Share { region } => {
            lemma_region_has_pool(region);
        },
        _ => {},
    }
}

} // verus!
