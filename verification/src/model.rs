//! The mathematical model of the pool of one size class.
use crate::advise::DANGLING;
use crate::queue::{batch_answer, batch_moved, passed_over, Steal};
use crate::size_class::{in_valid_range, lemma_class_bytes};
use vstd::arithmetic::power2::pow2;
use vstd::multiset::Multiset;
use vstd::prelude::*;

verus! {

/// A region of memory: its address and its length in bytes.
pub type Region = (usize, usize);

/// Counters of one thread, or of the threads that have ended, for one size class. A counter
/// starts over at zero when it overflows.
#[derive(Clone, Copy, Debug, PartialEq, Eq, Structural)]
pub struct AllocStats {
    pub allocations: u64,
    pub slow_path: u64,
    pub refill: u64,
    pub deallocations: u64,
    pub clear_eager: u64,
    pub clear_slow: u64,
}

/// No event counted yet.
pub open spec fn no_stats() -> AllocStats {
    AllocStats { allocations: 0, slow_path: 0, refill: 0, deallocations: 0, clear_eager: 0, clear_slow: 0 }
}

/// The events of both counters.
pub open spec fn sum_stats(a: AllocStats, b: AllocStats) -> AllocStats {
    AllocStats {
        allocations: a.allocations.wrapping_add(b.allocations),
        slow_path: a.slow_path.wrapping_add(b.slow_path),
        refill: a.refill.wrapping_add(b.refill),
        deallocations: a.deallocations.wrapping_add(b.deallocations),
        clear_eager: a.clear_eager.wrapping_add(b.clear_eager),
        clear_slow: a.clear_slow.wrapping_add(b.clear_slow),
    }
}

/// What one thread keeps of one size class.
#[verifier::ext_equal]
pub struct LocalView {
    /// The thread.
    pub thread_id: u64,
    /// Its cached regions. The last one leaves next.
    pub items: Seq<Region>,
    /// Its counters.
    pub stats: AllocStats,
}

/// The pool of one size class.
#[verifier::ext_equal]
pub struct ClassView {
    /// Regions have the size of two to this power.
    pub exponent: nat,
    /// The mapped areas, oldest first.
    pub areas: Seq<Region>,
    /// Total virtual size of the areas, in a machine word.
    pub total_bytes: usize,
    /// Returned regions that all threads share. The first one leaves next.
    pub global: Seq<Region>,
    /// Shared regions without contents. The first one leaves next.
    pub clean: Seq<Region>,
    /// The threads' caches.
    pub locals: Seq<LocalView>,
    /// Counters of the threads that have ended.
    pub retired: AllocStats,
}

/// All regions in the threads' caches.
pub open spec fn cached(locals: Seq<LocalView>) -> Multiset<Region>
    decreases locals.len(),
{
    if locals.len() == 0 {
        Multiset::empty()
    } else {
        cached(locals.drop_last()).add(locals.last().items.to_multiset())
    }
}

/// The number of regions in the threads' caches.
pub open spec fn cached_len(locals: Seq<LocalView>) -> nat
    decreases locals.len(),
{
    if locals.len() == 0 {
        0
    } else {
        cached_len(locals.drop_last()) + locals.last().items.len()
    }
}

/// The counters of the running threads together.
pub open spec fn running_stats(locals: Seq<LocalView>) -> AllocStats
    decreases locals.len(),
{
    if locals.len() == 0 {
        no_stats()
    } else {
        sum_stats(running_stats(locals.drop_last()), locals.last().stats)
    }
}

/// The bytes of all areas.
pub open spec fn area_bytes(areas: Seq<Region>) -> nat
    decreases areas.len(),
{
    if areas.len() == 0 {
        0
    } else {
        area_bytes(areas.drop_last()) + areas.last().1 as nat
    }
}

/// `region` is memory of `bytes` bytes.
pub open spec fn is_region(region: Region, bytes: nat) -> bool {
    &&& region.1 == bytes
    &&& region.0 > DANGLING
    &&& region.0 + region.1 <= usize::MAX
}

/// All of `regions` are memory of `bytes` bytes.
pub open spec fn all_regions(regions: Seq<Region>, bytes: nat) -> bool {
    forall|i: int| 0 <= i < regions.len() ==> is_region(#[trigger] regions[i], bytes)
}

/// An area is cut into regions of `bytes` bytes, and fits in a slice.
pub open spec fn is_area(area: Region, bytes: nat) -> bool {
    &&& area.1 >= bytes
    &&& area.1 as nat % bytes == 0
    &&& area.1 <= isize::MAX
    &&& area.0 > DANGLING
    &&& area.0 + area.1 <= usize::MAX
}

impl ClassView {
    /// The size of a region.
    pub open spec fn bytes(self) -> nat {
        pow2(self.exponent)
    }

    /// The free regions, wherever they are kept.
    pub open spec fn free(self) -> Multiset<Region> {
        self.global.to_multiset().add(self.clean.to_multiset()).add(cached(self.locals))
    }

    /// All counters together.
    pub open spec fn stats(self) -> AllocStats {
        sum_stats(running_stats(self.locals), self.retired)
    }

    /// No thread has a region in its cache.
    pub open spec fn caches_empty(self) -> bool {
        forall|i: int| 0 <= i < self.locals.len() ==> (#[trigger] self.locals[i]).items.len() == 0
    }

    /// No region is free.
    pub open spec fn exhausted(self) -> bool {
        &&& self.global.len() == 0
        &&& self.clean.len() == 0
        &&& self.caches_empty()
    }

    /// The thread keeps a cache.
    pub open spec fn has_thread(self, thread_id: u64) -> bool {
        exists|i: int| 0 <= i < self.locals.len() && (#[trigger] self.locals[i]).thread_id == thread_id
    }

    /// Position of the thread's cache.
    pub open spec fn slot(self, thread_id: u64) -> int {
        choose|i: int| 0 <= i < self.locals.len() && (#[trigger] self.locals[i]).thread_id == thread_id
    }

    /// What always holds of the pool: each thread keeps one cache, what is free is memory of the
    /// size of the class, and the areas are cut into such regions.
    pub open spec fn wf(self) -> bool {
        &&& in_valid_range(self.exponent as int)
        &&& all_regions(self.global, self.bytes())
        &&& all_regions(self.clean, self.bytes())
        &&& forall|i: int|
            0 <= i < self.locals.len() ==> all_regions((#[trigger] self.locals[i]).items, self.bytes())
        &&& forall|i: int, j: int|
            0 <= i < j < self.locals.len() ==> (#[trigger] self.locals[i]).thread_id != (
            #[trigger] self.locals[j]).thread_id
        &&& forall|i: int| 0 <= i < self.areas.len() ==> is_area(#[trigger] self.areas[i], self.bytes())
        &&& self.total_bytes as nat == area_bytes(self.areas) % (usize::MAX as nat + 1)
    }

    /// The length of the newest area, if there is one.
    pub open spec fn last_area_len(self) -> nat {
        if self.areas.len() > 0 {
            self.areas.last().1 as nat
        } else {
            0
        }
    }

    /// The pool with other contents in one cache.
    pub open spec fn with_items(self, who: int, items: Seq<Region>) -> ClassView {
        ClassView { locals: self.locals.update(who, LocalView { items, ..self.locals[who] }), ..self }
    }

    /// The pool with other counters of one thread.
    pub open spec fn with_stats(self, who: int, stats: AllocStats) -> ClassView {
        ClassView { locals: self.locals.update(who, LocalView { stats, ..self.locals[who] }), ..self }
    }

    /// Thread `who` takes the region that it cached last.
    pub open spec fn takes_cached(self, after: ClassView, who: int, region: Region) -> bool {
        let items = self.locals[who].items;
        &&& items.len() > 0
        &&& region == items.last()
        &&& after == self.with_items(who, items.drop_last())
    }

    /// Thread `who`, whose cache is empty, takes the first shared region, and moves more of the
    /// following ones to its cache, at most `limit` in all.
    pub open spec fn takes_global(self, after: ClassView, who: int, region: Region, limit: nat) -> bool {
        &&& self.locals[who].items.len() == 0
        &&& self.global.len() > 0
        &&& region == self.global[0]
        &&& batch_answer(self.global, self.locals[who].items, limit, Steal::Success(region))
        &&& exists|taken: nat|
            taken <= limit && #[trigger] batch_moved(
                self.global,
                after.global,
                self.locals[who].items,
                after.locals[who].items,
                true,
                1,
                taken,
            )
        &&& after == (ClassView { global: after.global, ..self.with_items(who, after.locals[who].items) })
    }

    /// The same with the shared regions without contents.
    pub open spec fn takes_clean(self, after: ClassView, who: int, region: Region, limit: nat) -> bool {
        &&& self.locals[who].items.len() == 0
        &&& self.clean.len() > 0
        &&& region == self.clean[0]
        &&& batch_answer(self.clean, self.locals[who].items, limit, Steal::Success(region))
        &&& exists|taken: nat|
            taken <= limit && #[trigger] batch_moved(
                self.clean,
                after.clean,
                self.locals[who].items,
                after.locals[who].items,
                true,
                1,
                taken,
            )
        &&& after == (ClassView { clean: after.clean, ..self.with_items(who, after.locals[who].items) })
    }

    /// A thread takes the region that thread `other` has cached longest.
    pub open spec fn takes_from(self, after: ClassView, other: int, region: Region) -> bool {
        let items = self.locals[other].items;
        &&& 0 <= other < self.locals.len()
        &&& items.len() > 0
        &&& region == items.first()
        &&& after == self.with_items(other, items.drop_first())
    }

    /// Thread `who`, whose cache is empty, takes a region from where the others can take too: from
    /// the shared regions, from those without contents, or from a cache. The next one of these is asked
    /// only where the one before it is empty, or asks for another attempt.
    pub open spec fn takes_shared(self, after: ClassView, who: int, region: Region, limit: nat) -> bool {
        ||| self.takes_global(after, who, region, limit)
        ||| passed_over(self.global, self.locals[who].items, limit) && self.takes_clean(after, who, region, limit)
        ||| passed_over(self.global, self.locals[who].items, limit) && passed_over(
            self.clean,
            self.locals[who].items,
            limit,
        ) && self.locals[who].items.len() == 0 && exists|other: int| #[trigger]
            self.takes_from(after, other, region)
    }

    /// A fresh area comes in: its first region is handed out, the others are free and without
    /// contents.
    pub open spec fn refilled(self, area: Region) -> ClassView {
        let regions = regions_of(area, self.bytes());
        ClassView {
            areas: self.areas.push(area),
            total_bytes: self.total_bytes.wrapping_add(area.1),
            clean: self.clean + regions.drop_first(),
            ..self
        }
    }

    /// Thread `who` gives a region back: to its cache while that has room, else to the shared
    /// regions. Where `eager` is set, a region that does not fit is cleared first, and is with
    /// neither until then.
    pub open spec fn recycled(self, who: int, region: Region, local_buffer_bytes: nat, eager: bool) -> ClassView {
        let stats = self.locals[who].stats;
        let counted = AllocStats { deallocations: stats.deallocations.wrapping_add(1), ..stats };
        let cleared = AllocStats { clear_eager: stats.clear_eager.wrapping_add(1), ..counted };
        if self.cache_has_room(who, local_buffer_bytes) {
            self.with_stats(who, counted).with_items(who, self.locals[who].items.push(region))
        } else if eager {
            self.with_stats(who, cleared)
        } else {
            ClassView { global: self.global.push(region), ..self.with_stats(who, counted) }
        }
    }

    /// The cache of thread `who` holds less than it may.
    pub open spec fn cache_has_room(self, who: int, local_buffer_bytes: nat) -> bool {
        self.locals[who].items.len() < local_buffer_bytes / self.bytes()
    }

    /// A thread comes in, with an empty cache.
    pub open spec fn with_thread(self, thread_id: u64) -> ClassView {
        ClassView {
            locals: self.locals.push(LocalView { thread_id, items: Seq::empty(), stats: no_stats() }),
            ..self
        }
    }

    /// Thread `who` ends: its cached regions are shared from now on, the one that it cached last
    /// first, and its counters are kept with those of the threads that have ended.
    pub open spec fn without_thread(self, who: int) -> ClassView {
        let local = self.locals[who];
        ClassView {
            global: self.global + local.items.reverse(),
            locals: self.locals.remove(who),
            retired: sum_stats(self.retired, local.stats),
            ..self
        }
    }

    /// The first `taken` shared regions are out to be cleared.
    pub open spec fn swept(self, taken: nat) -> ClassView {
        ClassView { global: self.global.subrange(taken as int, self.global.len() as int), ..self }
    }

    /// Regions that were out to be cleared come back without contents.
    pub open spec fn cleaned(self, regions: Seq<Region>) -> ClassView {
        ClassView {
            clean: self.clean + regions,
            retired: AllocStats {
                clear_slow: self.retired.clear_slow.wrapping_add(regions.len() as u64),
                ..self.retired
            },
            ..self
        }
    }

    /// Thread `who` asks for a region. While one is free it gets one, which counts as an allocation.
    /// Where none is, an area is to be mapped, which counts as an allocation on the slow path and as
    /// a refill. Where the shared queues ask for another attempt to the last, nothing happened.
    pub open spec fn allocates(
        self,
        after: ClassView,
        who: int,
        refill: RefillView,
        local_buffer_bytes: nat,
        dampener: usize,
    ) -> bool {
        let stats = self.locals[who].stats;
        let fast = AllocStats { allocations: stats.allocations.wrapping_add(1), ..stats };
        let slow = AllocStats { slow_path: stats.slow_path.wrapping_add(1), ..fast };
        let refilled = AllocStats { refill: stats.refill.wrapping_add(1), ..slow };
        match refill {
            RefillView::Ready(region) => {
                &&& !self.exhausted()
                &&& after.locals.len() == self.locals.len()
                &&& after.locals[who].stats == fast
                // But for the count, the thread takes a region.
                &&& self.takes(
                    after.with_stats(who, stats),
                    who,
                    region,
                    batch_limit(local_buffer_bytes, self.bytes()),
                )
            },
            RefillView::NeedArea(len) => {
                &&& self.exhausted()
                &&& after == self.with_stats(who, refilled)
                &&& len == next_area_bytes(self.last_area_len(), self.bytes(), dampener)
            },
            RefillView::Again => {
                &&& !self.exhausted()
                &&& self.caches_empty()
                &&& passed_over(
                    self.global,
                    self.locals[who].items,
                    batch_limit(local_buffer_bytes, self.bytes()),
                )
                &&& passed_over(
                    self.clean,
                    self.locals[who].items,
                    batch_limit(local_buffer_bytes, self.bytes()),
                )
                &&& after == self
            },
        }
    }

    /// Thread `who` takes a region: from its cache, or where that is empty from the others.
    pub open spec fn takes(self, after: ClassView, who: int, region: Region, limit: nat) -> bool {
        if self.locals[who].items.len() > 0 {
            self.takes_cached(after, who, region)
        } else {
            self.takes_shared(after, who, region, limit)
        }
    }
}

/// A pool without memory and threads.
pub open spec fn empty_class(exponent: nat) -> ClassView {
    ClassView {
        exponent,
        areas: Seq::empty(),
        total_bytes: 0,
        global: Seq::empty(),
        clean: Seq::empty(),
        locals: Seq::empty(),
        retired: no_stats(),
    }
}

/// The most that a thread takes at once from a shared queue: half of what it may cache, at least
/// one region.
pub open spec fn batch_limit(local_buffer_bytes: nat, bytes: nat) -> nat {
    let half = local_buffer_bytes / bytes / 2;
    if half > 1 {
        half
    } else {
        1
    }
}

/// Initial area size: 32 MiB.
pub const INITIAL_SIZE: usize = 0x200_0000;

/// The size of the next area. It has more regions than the last one: by a factor of
/// `1+1/(dampener+1)`, but at least by those of an initial area.
pub open spec fn next_area_bytes(last_len: nat, bytes: nat, dampener: usize) -> nat {
    let initial = if INITIAL_SIZE as nat / bytes > 1 {
        INITIAL_SIZE as nat / bytes
    } else {
        1
    };
    let last = last_len / bytes;
    let growth = last / dampener.saturating_add(1) as nat;
    (last + if growth > initial {
        growth
    } else {
        initial
    }) * bytes
}

/// The regions that an area is cut into.
pub open spec fn regions_of(area: Region, bytes: nat) -> Seq<Region> {
    Seq::new(area.1 as nat / bytes, |i: int| ((area.0 + i * bytes) as usize, bytes as usize))
}

/// What a thread gets when it asks its pool for a region.
pub enum RefillView {
    /// A region.
    Ready(Region),
    /// The pool is empty: an area of this many bytes is to be mapped.
    NeedArea(usize),
    /// The shared queues ask for another attempt.
    Again,
}

/// The pools differ at most in the free regions.
pub open spec fn same_accounts(before: ClassView, after: ClassView) -> bool {
    &&& after.exponent == before.exponent
    &&& after.areas == before.areas
    &&& after.total_bytes == before.total_bytes
    &&& after.retired == before.retired
    &&& after.locals.len() == before.locals.len()
    &&& forall|i: int|
        0 <= i < before.locals.len() ==> (#[trigger] after.locals[i]).thread_id == before.locals[i].thread_id
            && after.locals[i].stats == before.locals[i].stats
}

/// The pools have the same threads, at the same positions.
pub open spec fn same_threads(before: ClassView, after: ClassView) -> bool {
    &&& after.locals.len() == before.locals.len()
    &&& forall|i: int|
        0 <= i < before.locals.len() ==> (#[trigger] after.locals[i]).thread_id == before.locals[i].thread_id
}

/// Replacing the contents of one cache.
pub proof fn lemma_cached_update(locals: Seq<LocalView>, who: int, local: LocalView)
    requires
        0 <= who < locals.len(),
    ensures
        cached(locals.update(who, local)).add(locals[who].items.to_multiset()) == cached(locals).add(
            local.items.to_multiset(),
        ),
        cached_len(locals.update(who, local)) + locals[who].items.len() == cached_len(locals)
            + local.items.len(),
    decreases locals.len(),
{
    broadcast use vstd::multiset::group_multiset_axioms;
    let updated = locals.update(who, local);
    if who == locals.len() - 1 {
        assert(updated.drop_last() =~= locals.drop_last());
    } else {
        lemma_cached_update(locals.drop_last(), who, local);
        assert(updated.drop_last() =~= locals.drop_last().update(who, local));
        assert(updated.last() == locals.last());
    }
    let left = cached(updated).add(locals[who].items.to_multiset());
    let right = cached(locals).add(local.items.to_multiset());
    assert forall|r: Region| left.count(r) == right.count(r) by {
        if who < locals.len() - 1 {
            let l = cached(locals.drop_last().update(who, local)).add(locals[who].items.to_multiset());
            let r2 = cached(locals.drop_last()).add(local.items.to_multiset());
            assert(l.count(r) == r2.count(r));
        }
    }
    assert(left =~= right);
}

/// The same for the number of times that one region is there.
proof fn lemma_cached_update_count(locals: Seq<LocalView>, who: int, local: LocalView, region: Region)
    requires
        0 <= who < locals.len(),
    ensures
        cached(locals.update(who, local)).count(region) + locals[who].items.to_multiset().count(region) == cached(
            locals,
        ).count(region) + local.items.to_multiset().count(region),
{
    broadcast use vstd::multiset::group_multiset_axioms;
    lemma_cached_update(locals, who, local);
    let left = cached(locals.update(who, local)).add(locals[who].items.to_multiset());
    assert(left.count(region) == cached(locals).add(local.items.to_multiset()).count(region));
}

/// Moving a batch keeps what both queues hold together, but for the items that were skipped.
pub proof fn lemma_batch_moved(
    source: Seq<Region>,
    source_after: Seq<Region>,
    dest: Seq<Region>,
    dest_after: Seq<Region>,
    lifo: bool,
    skip: nat,
    taken: nat,
)
    requires
        batch_moved(source, source_after, dest, dest_after, lifo, skip, taken),
        skip <= taken,
    ensures
        source.to_multiset().add(dest.to_multiset()) == source_after.to_multiset().add(
            dest_after.to_multiset(),
        ).add(source.subrange(0, skip as int).to_multiset()),
        forall|bytes: nat|
            all_regions(source, bytes) && all_regions(dest, bytes) ==> all_regions(source_after, bytes)
                && #[trigger] all_regions(dest_after, bytes),
{
    broadcast use {vstd::multiset::group_multiset_axioms, vstd::seq_lib::group_to_multiset_ensures};
    let head = source.subrange(0, skip as int);
    let batch = source.subrange(skip as int, taken as int);
    batch.lemma_reverse_to_multiset();
    vstd::seq_lib::lemma_multiset_commutative(head, batch);
    vstd::seq_lib::lemma_multiset_commutative(head + batch, source_after);
    vstd::seq_lib::lemma_multiset_commutative(dest, crate::queue::arrival(lifo, batch));
    assert(source =~= head + batch + source_after);
    assert(source.to_multiset().add(dest.to_multiset()) =~= source_after.to_multiset().add(
        dest_after.to_multiset(),
    ).add(head.to_multiset()));
    assert forall|bytes: nat| all_regions(source, bytes) && all_regions(dest, bytes) implies all_regions(
        source_after,
        bytes,
    ) && #[trigger] all_regions(dest_after, bytes) by {
        assert forall|i: int| 0 <= i < source_after.len() implies is_region(#[trigger] source_after[i], bytes) by {
            assert(source_after[i] == source[i + taken]);
        }
        assert forall|i: int| 0 <= i < dest_after.len() implies is_region(#[trigger] dest_after[i], bytes) by {
            if i < dest.len() {
                assert(dest_after[i] == dest[i]);
            } else {
                let k = i - dest.len();
                let j = if lifo {
                    batch.len() - 1 - k
                } else {
                    k
                };
                assert(dest_after[i] == batch[j]);
                assert(batch[j] == source[skip + j]);
            }
        }
    }
}

/// Taking a region leaves a pool behind that has lost exactly that region, and nothing else
/// changed but where the other free regions are kept.
pub proof fn lemma_takes(before: ClassView, after: ClassView, who: int, region: Region, limit: nat)
    requires
        before.wf(),
        0 <= who < before.locals.len(),
        before.takes(after, who, region, limit),
    ensures
        after.wf(),
        is_region(region, before.bytes()),
        before.free() == after.free().insert(region),
        same_accounts(before, after),
{
    broadcast use {vstd::multiset::group_multiset_axioms, vstd::seq_lib::group_to_multiset_ensures};
    let items = before.locals[who].items;
    if items.len() > 0 {
        assert(items =~= items.drop_last().push(region));
        assert forall|r: Region| before.free().count(r) == after.free().insert(region).count(r) by {
            lemma_cached_update_count(before.locals, who, after.locals[who], r);
        }
        assert(before.free() =~= after.free().insert(region));
    } else if before.takes_global(after, who, region, limit) {
        let taken = choose|taken: nat|
            taken <= limit && #[trigger] batch_moved(
                before.global,
                after.global,
                items,
                after.locals[who].items,
                true,
                1,
                taken,
            );
        lemma_batch_moved(before.global, after.global, items, after.locals[who].items, true, 1, taken);
        let head = before.global.subrange(0, 1);
        assert(head =~= Seq::<Region>::empty().push(region));
        let left = before.global.to_multiset().add(items.to_multiset());
        let right = after.global.to_multiset().add(after.locals[who].items.to_multiset()).add(head.to_multiset());
        assert forall|r: Region| before.free().count(r) == after.free().insert(region).count(r) by {
            lemma_cached_update_count(before.locals, who, after.locals[who], r);
            assert(left.count(r) == right.count(r));
        }
        assert(all_regions(after.locals[who].items, before.bytes()));
        assert(before.free() =~= after.free().insert(region));
    } else if before.takes_clean(after, who, region, limit) {
        let taken = choose|taken: nat|
            taken <= limit && #[trigger] batch_moved(
                before.clean,
                after.clean,
                items,
                after.locals[who].items,
                true,
                1,
                taken,
            );
        lemma_batch_moved(before.clean, after.clean, items, after.locals[who].items, true, 1, taken);
        let head = before.clean.subrange(0, 1);
        assert(head =~= Seq::<Region>::empty().push(region));
        let left = before.clean.to_multiset().add(items.to_multiset());
        let right = after.clean.to_multiset().add(after.locals[who].items.to_multiset()).add(head.to_multiset());
        assert forall|r: Region| before.free().count(r) == after.free().insert(region).count(r) by {
            lemma_cached_update_count(before.locals, who, after.locals[who], r);
            assert(left.count(r) == right.count(r));
        }
        assert(all_regions(after.locals[who].items, before.bytes()));
        assert(before.free() =~= after.free().insert(region));
    } else {
        let other = choose|other: int| #[trigger] before.takes_from(after, other, region);
        let stolen = before.locals[other].items;
        assert(stolen.drop_first() =~= stolen.remove(0));
        assert forall|r: Region| before.free().count(r) == after.free().insert(region).count(r) by {
            lemma_cached_update_count(before.locals, other, after.locals[other], r);
        }
        assert(before.free() =~= after.free().insert(region));
    }
}

/// Counting an event does not disturb the pool.
pub proof fn lemma_wf_with_stats(view: ClassView, who: int, stats: AllocStats)
    requires
        view.wf(),
        0 <= who < view.locals.len(),
    ensures
        view.with_stats(who, stats).wf(),
        view.with_stats(who, stats).exhausted() == view.exhausted(),
        view.with_stats(who, stats).caches_empty() == view.caches_empty(),
        view.with_stats(who, stats).free() == view.free(),
        same_threads(view, view.with_stats(who, stats)),
{
    broadcast use vstd::multiset::group_multiset_axioms;
    let after = view.with_stats(who, stats);
    assert forall|r: Region| after.free().count(r) == view.free().count(r) by {
        lemma_cached_update_count(view.locals, who, after.locals[who], r);
    }
    assert(after.free() =~= view.free());
    assert(forall|i: int| 0 <= i < view.locals.len() ==> (#[trigger] after.locals[i]).items == view.locals[i].items);
    if after.caches_empty() {
        assert forall|i: int| 0 <= i < view.locals.len() implies (#[trigger] view.locals[i]).items.len() == 0 by {
            assert(after.locals[i].items.len() == 0);
        }
    }
}

/// The next area's length fits in a machine word, and so does its number of regions.
pub proof fn lemma_next_area_fits(last_len: int, bytes: int, initial: int, step: int)
    requires
        usize::BITS == 64,
        0 <= last_len <= isize::MAX,
        0 < bytes <= 0x20_0000_0000,
        initial == 1 || initial == INITIAL_SIZE as int / bytes,
        0 < initial,
        0 <= step,
        step <= initial || step <= last_len / bytes,
    ensures
        last_len / bytes + step <= usize::MAX,
        (last_len / bytes + step) * bytes <= usize::MAX,
{
    let last = last_len / bytes;
    assert(0 <= last && last * bytes <= last_len) by (nonlinear_arith)
        requires
            last == last_len / bytes,
            bytes > 0,
            last_len >= 0,
    ;
    assert(initial * bytes <= 0x20_0000_0000) by (nonlinear_arith)
        requires
            initial == 1 || initial == 0x200_0000int / bytes,
            0 < bytes <= 0x20_0000_0000,
    ;
    assert(step * bytes <= isize::MAX) by (nonlinear_arith)
        requires
            step <= initial || step <= last,
            0 < bytes,
            initial * bytes <= 0x20_0000_0000,
            last * bytes <= last_len <= isize::MAX,
            isize::MAX >= 0x20_0000_0000,
    ;
    assert((last + step) * bytes == last * bytes + step * bytes) by (nonlinear_arith);
    assert(last + step <= (last + step) * bytes) by (nonlinear_arith)
        requires
            bytes >= 1,
            last >= 0,
            step >= 0,
    ;
}

/// The next area is cut into whole regions.
pub proof fn lemma_next_area(pool: ClassView, dampener: usize)
    requires
        pool.wf(),
    ensures
        next_area_bytes(pool.last_area_len(), pool.bytes(), dampener) >= pool.bytes(),
        next_area_bytes(pool.last_area_len(), pool.bytes(), dampener) % pool.bytes() == 0,
{
    let bytes = pool.bytes();
    let next = next_area_bytes(pool.last_area_len(), bytes, dampener);
    lemma_class_bytes(pool.exponent);
    let initial = if INITIAL_SIZE as nat / bytes > 1 {
        INITIAL_SIZE as nat / bytes
    } else {
        1
    };
    let last = pool.last_area_len() / bytes;
    let growth = last / dampener.saturating_add(1) as nat;
    let capacity = last + if growth > initial {
        growth
    } else {
        initial
    };
    assert(next == capacity * bytes);
    vstd::arithmetic::div_mod::lemma_mod_multiples_basic(capacity as int, bytes as int);
    assert(capacity * bytes >= bytes) by (nonlinear_arith)
        requires
            capacity >= 1,
    ;
}

/// The pool after a refill, and what it gained.
pub proof fn lemma_refilled(view: ClassView, area: Region)
    requires
        usize::BITS == 64,
        view.wf(),
        is_area(area, view.bytes()),
    ensures
        view.refilled(area).wf(),
        regions_of(area, view.bytes()).len() >= 1,
        all_regions(regions_of(area, view.bytes()), view.bytes()),
        regions_of(area, view.bytes())[0] == (area.0, view.bytes() as usize),
        view.refilled(area).free().insert(regions_of(area, view.bytes())[0]) == view.free().add(
            regions_of(area, view.bytes()).to_multiset(),
        ),
{
    broadcast use {vstd::multiset::group_multiset_axioms, vstd::seq_lib::group_to_multiset_ensures};
    let bytes = view.bytes();
    let regions = regions_of(area, bytes);
    let after = view.refilled(area);
    let rest = regions.drop_first();
    lemma_class_bytes(view.exponent);
    lemma_regions_of(area, bytes);
    vstd::seq_lib::lemma_multiset_commutative(view.clean, rest);
    assert(rest =~= regions.remove(0));
    assert(after.areas.drop_last() =~= view.areas);
    lemma_wrapping_total(area_bytes(view.areas), view.total_bytes, area.1);
    assert forall|r: Region|
        after.free().insert(regions[0]).count(r) == view.free().add(regions.to_multiset()).count(r) by {
        assert(regions.to_multiset().count(regions[0]) > 0);
    }
    assert(after.free().insert(regions[0]) =~= view.free().add(regions.to_multiset()));
}

/// The regions that an area is cut into lie in it one behind the other and fill it.
pub proof fn lemma_regions_of(area: Region, bytes: nat)
    requires
        is_area(area, bytes),
        0 < bytes <= usize::MAX,
    ensures
        regions_of(area, bytes).len() >= 1,
        regions_of(area, bytes).len() * bytes == area.1,
        all_regions(regions_of(area, bytes), bytes),
        regions_of(area, bytes)[0] == (area.0, bytes as usize),
{
    let regions = regions_of(area, bytes);
    let n = regions.len();
    assert(n * bytes == area.1 && n >= 1) by (nonlinear_arith)
        requires
            n == area.1 as nat / bytes,
            area.1 as nat % bytes == 0,
            area.1 >= bytes,
            bytes > 0,
    ;
    assert forall|i: int| 0 <= i < regions.len() implies is_region(#[trigger] regions[i], bytes) by {
        lemma_position_in_area(area, bytes, i);
    }
    lemma_position_in_area(area, bytes, 0);
}

/// Where a region begins and ends.
pub proof fn lemma_position_in_area(area: Region, bytes: nat, i: int)
    requires
        is_area(area, bytes),
        0 <= i < regions_of(area, bytes).len(),
        0 < bytes <= usize::MAX,
    ensures
        regions_of(area, bytes)[i] == ((area.0 + i * bytes) as usize, bytes as usize),
        i == 0 ==> i * bytes == 0,
        0 <= i * bytes,
        area.0 + i * bytes + bytes == area.0 + (i + 1) * bytes,
        area.0 + (i + 1) * bytes <= area.0 + area.1,
{
    let n = regions_of(area, bytes).len();
    assert(n * bytes == area.1) by (nonlinear_arith)
        requires
            n == area.1 as nat / bytes,
            area.1 as nat % bytes == 0,
            bytes > 0,
    ;
    assert((i + 1) * bytes <= n * bytes && i * bytes >= 0 && (i + 1) * bytes == i * bytes + bytes)
        by (nonlinear_arith)
        requires
            0 <= i < n,
            bytes > 0,
    ;
    assert(i == 0 ==> i * bytes == 0) by (nonlinear_arith);
}

/// Adding to a machine word that holds a total modulo its range.
pub proof fn lemma_wrapping_total(total: nat, word: usize, more: usize)
    requires
        word as nat == total % (usize::MAX as nat + 1),
    ensures
        word.wrapping_add(more) as nat == (total + more as nat) % (usize::MAX as nat + 1),
{
    let m = usize::MAX as int + 1;
    vstd::arithmetic::div_mod::lemma_add_mod_noop(total as int, more as int, m);
    vstd::arithmetic::div_mod::lemma_small_mod(more as nat, m as nat);
    if word + more < m {
        vstd::arithmetic::div_mod::lemma_small_mod((word + more) as nat, m as nat);
    } else {
        vstd::arithmetic::div_mod::lemma_mod_sub_multiples_vanish(word + more, m);
        vstd::arithmetic::div_mod::lemma_small_mod((word + more - m) as nat, m as nat);
    }
}

/// Giving a region back, with what the pool gained.
pub proof fn lemma_recycled(view: ClassView, who: int, region: Region, local_buffer_bytes: nat, eager: bool)
    requires
        view.wf(),
        0 <= who < view.locals.len(),
        is_region(region, view.bytes()),
    ensures
        view.recycled(who, region, local_buffer_bytes, eager).wf(),
        view.recycled(who, region, local_buffer_bytes, eager).free() == if view.cache_has_room(
            who,
            local_buffer_bytes,
        ) || !eager {
            view.free().insert(region)
        } else {
            view.free()
        },
{
    broadcast use {vstd::multiset::group_multiset_axioms, vstd::seq_lib::group_to_multiset_ensures};
    let after = view.recycled(who, region, local_buffer_bytes, eager);
    let goal = if view.cache_has_room(who, local_buffer_bytes) || !eager {
        view.free().insert(region)
    } else {
        view.free()
    };
    assert(after.locals =~= view.locals.update(who, after.locals[who]));
    assert forall|r: Region| after.free().count(r) == goal.count(r) by {
        lemma_cached_update_count(view.locals, who, after.locals[who], r);
    }
    assert(after.free() =~= goal);
}

/// A cache leaves.
proof fn lemma_cached_remove(locals: Seq<LocalView>, who: int)
    requires
        0 <= who < locals.len(),
    ensures
        cached(locals) == cached(locals.remove(who)).add(locals[who].items.to_multiset()),
        cached_len(locals) == cached_len(locals.remove(who)) + locals[who].items.len(),
        running_stats(locals) == sum_stats(running_stats(locals.remove(who)), locals[who].stats),
    decreases locals.len(),
{
    broadcast use vstd::multiset::group_multiset_axioms;
    let rest = locals.remove(who);
    if who == locals.len() - 1 {
        assert(rest =~= locals.drop_last());
    } else {
        lemma_cached_remove(locals.drop_last(), who);
        assert(rest.drop_last() =~= locals.drop_last().remove(who));
        assert(rest.last() == locals.last());
        assert(cached(locals) =~= cached(rest).add(locals[who].items.to_multiset()));
    }
}

/// The end of a thread: nothing is lost, neither a region nor a count.
pub proof fn lemma_without_thread(view: ClassView, who: int)
    requires
        view.wf(),
        0 <= who < view.locals.len(),
    ensures
        view.without_thread(who).wf(),
        view.without_thread(who).free() == view.free(),
        view.without_thread(who).stats() == view.stats(),
        !view.without_thread(who).has_thread(view.locals[who].thread_id),
{
    broadcast use {vstd::multiset::group_multiset_axioms, vstd::seq_lib::group_to_multiset_ensures};
    let after = view.without_thread(who);
    let items = view.locals[who].items;
    lemma_cached_remove(view.locals, who);
    items.lemma_reverse_to_multiset();
    vstd::seq_lib::lemma_multiset_commutative(view.global, items.reverse());
    assert(after.free() =~= view.free());
    assert forall|i: int| 0 <= i < after.global.len() implies is_region(#[trigger] after.global[i], view.bytes()) by {
        if i >= view.global.len() {
            assert(after.global[i] == items[items.len() - 1 - (i - view.global.len())]);
        }
    }
    assert forall|i: int| 0 <= i < after.locals.len() implies (#[trigger] after.locals[i]).thread_id
        != view.locals[who].thread_id by {
        assert(after.locals[i] == if i < who {
            view.locals[i]
        } else {
            view.locals[i + 1]
        });
    }
}

/// The arrival of a thread.
pub proof fn lemma_with_thread(view: ClassView, thread_id: u64)
    requires
        view.wf(),
        !view.has_thread(thread_id),
    ensures
        view.with_thread(thread_id).wf(),
        view.with_thread(thread_id).free() == view.free(),
        view.with_thread(thread_id).stats() == view.stats(),
{
    broadcast use {vstd::multiset::group_multiset_axioms, vstd::seq_lib::group_to_multiset_ensures};
    let after = view.with_thread(thread_id);
    assert(after.locals.drop_last() =~= view.locals);
    assert(after.free() =~= view.free());
}

/// Regions that go out to be cleared, and come back.
pub proof fn lemma_sweep(view: ClassView, taken: nat)
    requires
        view.wf(),
        taken <= view.global.len(),
    ensures
        view.swept(taken).wf(),
        view.free() == view.swept(taken).free().add(view.global.subrange(0, taken as int).to_multiset()),
{
    broadcast use {vstd::multiset::group_multiset_axioms, vstd::seq_lib::group_to_multiset_ensures};
    let head = view.global.subrange(0, taken as int);
    let rest = view.swept(taken).global;
    vstd::seq_lib::lemma_multiset_commutative(head, rest);
    assert(view.global =~= head + rest);
    assert(view.free() =~= view.swept(taken).free().add(head.to_multiset()));
}

/// Cleared regions are free again.
pub proof fn lemma_cleaned(view: ClassView, regions: Seq<Region>)
    requires
        view.wf(),
        all_regions(regions, view.bytes()),
    ensures
        view.cleaned(regions).wf(),
        view.cleaned(regions).free() == view.free().add(regions.to_multiset()),
{
    broadcast use {vstd::multiset::group_multiset_axioms, vstd::seq_lib::group_to_multiset_ensures};
    vstd::seq_lib::lemma_multiset_commutative(view.clean, regions);
    assert(view.cleaned(regions).free() =~= view.free().add(regions.to_multiset()));
}

/// Asking for a region: the pool stays in order, and loses the region that it hands out.
pub proof fn lemma_allocates(
    before: ClassView,
    after: ClassView,
    who: int,
    refill: RefillView,
    local_buffer_bytes: nat,
    dampener: usize,
)
    requires
        before.wf(),
        0 <= who < before.locals.len(),
        before.allocates(after, who, refill, local_buffer_bytes, dampener),
    ensures
        after.wf(),
        after.exponent == before.exponent,
        after.areas == before.areas,
        same_threads(before, after),
        match refill {
            RefillView::Ready(region) => is_region(region, before.bytes()) && before.free() == after.free().insert(
                region,
            ),
            RefillView::NeedArea(_) => after.free() == before.free(),
            RefillView::Again => after == before,
        },
{
    let stats = before.locals[who].stats;
    match refill {
        RefillView::Ready(region) => {
            let uncounted = after.with_stats(who, stats);
            lemma_takes(before, uncounted, who, region, batch_limit(local_buffer_bytes, before.bytes()));
            lemma_wf_with_stats(uncounted, who, after.locals[who].stats);
            assert(uncounted.with_stats(who, after.locals[who].stats) =~= after);
        },
        RefillView::NeedArea(_) => {
            lemma_wf_with_stats(before, who, after.locals[who].stats);
        },
        RefillView::Again => {},
    }
}

} // verus!
