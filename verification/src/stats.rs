//! Statistics about the allocator's internal behavior.
use crate::model::{cached_len, ClassView};
use vstd::prelude::*;

verus! {

/// Statistics per size class.
#[derive(Clone, Copy, Debug, PartialEq, Eq, Structural)]
pub struct SizeClassStats {
    /// Number of areas backing a size class.
    pub areas: usize,
    /// Total number of bytes summed across all areas.
    pub area_total_bytes: usize,
    /// Free regions
    pub free_regions: usize,
    /// Clean free regions in the global allocator
    pub clean_regions: usize,
    /// Regions in the global allocator
    pub global_regions: usize,
    /// Regions retained in thread-local allocators
    pub thread_regions: usize,
    /// Total allocations
    pub allocations: u64,
    /// Total slow-path allocations (globally out of memory)
    pub slow_path: u64,
    /// Total refills
    pub refill: u64,
    /// Total deallocations
    pub deallocations: u64,
    /// Total times memory has been returned to the OS (eager reclamation) in regions.
    pub clear_eager_total: u64,
    /// Total times memory has been returned to the OS (slow reclamation) in regions.
    pub clear_slow_total: u64,
}

/// Statistics about the allocator.
#[derive(Debug)]
pub struct Stats {
    /// Per size-class statistics.
    pub size_class: Vec<(usize, SizeClassStats)>,
}

/// A count as a machine word holds it.
pub open spec fn word(count: nat) -> usize {
    (count % (usize::MAX as nat + 1)) as usize
}

/// The statistics of the pool of a size class.
pub open spec fn class_stats(view: ClassView) -> SizeClassStats {
    let threads = cached_len(view.locals);
    let totals = view.stats();
    SizeClassStats {
        areas: view.areas.len() as usize,
        area_total_bytes: view.total_bytes,
        free_regions: word(threads + view.global.len() + view.clean.len()),
        clean_regions: view.clean.len() as usize,
        global_regions: view.global.len() as usize,
        thread_regions: word(threads),
        allocations: totals.allocations,
        slow_path: totals.slow_path,
        refill: totals.refill,
        deallocations: totals.deallocations,
        clear_eager_total: totals.clear_eager,
        clear_slow_total: totals.clear_slow,
    }
}

/// A count is shown as it is where a machine word can hold it, and starts over at zero beyond that.
pub proof fn law_counts_in_a_word(count: nat)
    ensures
        count <= usize::MAX ==> word(count) == count,
        word(count + usize::MAX as nat + 1) == word(count),
        word(0) == 0,
{
    let m = usize::MAX as nat + 1;
    if count <= usize::MAX {
        vstd::arithmetic::div_mod::lemma_small_mod(count, m);
    }
    vstd::arithmetic::div_mod::lemma_small_mod(0, m);
    vstd::arithmetic::div_mod::lemma_mod_add_multiples_vanish(count as int, m as int);
}

} // verus!
