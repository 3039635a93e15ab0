//! Who holds which memory: every region of an area is either free or held by one holder.
use crate::model::{
    all_regions, area_bytes, empty_class, is_area, lemma_allocates, lemma_cleaned, lemma_position_in_area,
    lemma_recycled, lemma_refilled, lemma_regions_of, lemma_sweep, lemma_with_thread, lemma_without_thread,
    regions_of, ClassView, RefillView, Region,
};
use crate::size_class::lemma_class_bytes;
use vstd::multiset::Multiset;
use vstd::prelude::*;
use vstd::set_lib::{lemma_int_range, lemma_len_subset, lemma_set_disjoint_lens, set_int_range};

verus! {

/// Two stretches of memory have no byte in common.
pub open spec fn disjoint(a: Region, b: Region) -> bool {
    a.0 + a.1 <= b.0 || b.0 + b.1 <= a.0
}

/// No two areas have a byte in common.
pub open spec fn all_disjoint(areas: Seq<Region>) -> bool {
    forall|i: int, j: int| 0 <= i < j < areas.len() ==> disjoint(#[trigger] areas[i], #[trigger] areas[j])
}

/// One stretch of memory lies within another one.
pub open spec fn within(inner: Region, outer: Region) -> bool {
    outer.0 <= inner.0 && inner.0 + inner.1 <= outer.0 + outer.1
}

/// The regions that the areas are cut into.
pub open spec fn carved(areas: Seq<Region>, bytes: nat) -> Multiset<Region>
    decreases areas.len(),
{
    if areas.len() == 0 {
        Multiset::empty()
    } else {
        carved(areas.drop_last(), bytes).add(regions_of(areas.last(), bytes).to_multiset())
    }
}

/// The regions that are free and those that are out are together the regions of the areas.
pub open spec fn balanced(pool: ClassView, out: Multiset<Region>) -> bool {
    pool.free().add(out) == carved(pool.areas, pool.bytes())
}

/// The regions of an area do not overlap and lie within the area, without a gap between them.
pub proof fn law_regions_partition_area(area: Region, bytes: nat, i: int, j: int)
    requires
        is_area(area, bytes),
        0 < bytes <= usize::MAX,
        0 <= i < j < regions_of(area, bytes).len(),
    ensures
        disjoint(regions_of(area, bytes)[i], regions_of(area, bytes)[j]),
        within(regions_of(area, bytes)[i], area),
        within(regions_of(area, bytes)[j], area),
        regions_of(area, bytes)[0].0 == area.0,
        regions_of(area, bytes)[i + 1].0 == regions_of(area, bytes)[i].0 + regions_of(area, bytes)[i].1,
        regions_of(area, bytes).last().0 + regions_of(area, bytes).last().1 == area.0 + area.1,
{
    let regions = regions_of(area, bytes);
    let n = regions.len();
    lemma_regions_of(area, bytes);
    lemma_position_in_area(area, bytes, i);
    lemma_position_in_area(area, bytes, i + 1);
    lemma_position_in_area(area, bytes, j);
    lemma_position_in_area(area, bytes, n - 1);
    assert((i + 1) * bytes <= j * bytes) by (nonlinear_arith)
        requires
            i + 1 <= j,
            bytes > 0,
    ;
}

/// A region of an area lies within it.
proof fn lemma_region_within(area: Region, bytes: nat, region: Region)
    requires
        is_area(area, bytes),
        0 < bytes <= usize::MAX,
        regions_of(area, bytes).contains(region),
    ensures
        within(region, area),
        region.1 == bytes,
{
    let regions = regions_of(area, bytes);
    let i = choose|i: int| 0 <= i < regions.len() && regions[i] == region;
    lemma_position_in_area(area, bytes, i);
}

/// Two regions of an area are the same or have no byte in common.
proof fn lemma_regions_disjoint(area: Region, bytes: nat, a: Region, b: Region)
    requires
        is_area(area, bytes),
        0 < bytes <= usize::MAX,
        regions_of(area, bytes).contains(a),
        regions_of(area, bytes).contains(b),
        a != b,
    ensures
        disjoint(a, b),
{
    let regions = regions_of(area, bytes);
    let i = choose|i: int| 0 <= i < regions.len() && regions[i] == a;
    let j = choose|j: int| 0 <= j < regions.len() && regions[j] == b;
    if i < j {
        law_regions_partition_area(area, bytes, i, j);
    } else {
        law_regions_partition_area(area, bytes, j, i);
    }
}

/// No region occurs twice in an area.
proof fn lemma_regions_once(area: Region, bytes: nat)
    requires
        is_area(area, bytes),
        0 < bytes <= usize::MAX,
    ensures
        regions_of(area, bytes).no_duplicates(),
{
    let regions = regions_of(area, bytes);
    assert forall|i: int, j: int| 0 <= i < regions.len() && 0 <= j < regions.len() && i != j implies regions[i]
        != regions[j] by {
        if i < j {
            law_regions_partition_area(area, bytes, i, j);
        } else {
            law_regions_partition_area(area, bytes, j, i);
        }
        lemma_position_in_area(area, bytes, i);
    }
}

/// A carved region lies within one of the areas.
proof fn lemma_carved_within(areas: Seq<Region>, bytes: nat, region: Region) -> (i: int)
    requires
        forall|i: int| 0 <= i < areas.len() ==> is_area(#[trigger] areas[i], bytes),
        0 < bytes <= usize::MAX,
        carved(areas, bytes).count(region) > 0,
    ensures
        0 <= i < areas.len(),
        within(region, areas[i]),
        region.1 == bytes,
    decreases areas.len(),
{
    broadcast use {vstd::multiset::group_multiset_axioms, vstd::seq_lib::group_to_multiset_ensures};
    let last = areas.last();
    if regions_of(last, bytes).to_multiset().count(region) > 0 {
        assert(regions_of(last, bytes).contains(region));
        assert(is_area(areas[areas.len() - 1], bytes));
        lemma_region_within(last, bytes, region);
        areas.len() - 1
    } else {
        assert forall|i: int| 0 <= i < areas.drop_last().len() implies is_area(
            #[trigger] areas.drop_last()[i],
            bytes,
        ) by {
            assert(is_area(areas[i], bytes));
        }
        lemma_carved_within(areas.drop_last(), bytes, region)
    }
}

/// Regions of disjoint areas occur once and do not overlap.
proof fn lemma_carved_disjoint(areas: Seq<Region>, bytes: nat, a: Region, b: Region)
    requires
        forall|i: int| 0 <= i < areas.len() ==> is_area(#[trigger] areas[i], bytes),
        all_disjoint(areas),
        0 < bytes <= usize::MAX,
    ensures
        carved(areas, bytes).count(a) <= 1,
        a != b && carved(areas, bytes).count(a) > 0 && carved(areas, bytes).count(b) > 0 ==> disjoint(a, b),
    decreases areas.len(),
{
    broadcast use {vstd::multiset::group_multiset_axioms, vstd::seq_lib::group_to_multiset_ensures};
    if areas.len() > 0 {
        let last = areas.last();
        let rest = areas.drop_last();
        let regions = regions_of(last, bytes);
        assert(is_area(areas[areas.len() - 1], bytes));
        assert forall|i: int| 0 <= i < rest.len() implies is_area(#[trigger] rest[i], bytes) by {
            assert(is_area(areas[i], bytes));
        }
        assert forall|i: int, j: int| 0 <= i < j < rest.len() implies disjoint(
            #[trigger] rest[i],
            #[trigger] rest[j],
        ) by {
            assert(disjoint(areas[i], areas[j]));
        }
        lemma_carved_disjoint(rest, bytes, a, b);
        lemma_regions_once(last, bytes);
        regions.lemma_multiset_has_no_duplicates();
        assert(regions.to_multiset().count(a) <= 1) by {
            if regions.to_multiset().count(a) > 0 {
                assert(regions.to_multiset().contains(a));
            }
        }
        if regions.to_multiset().count(a) > 0 {
            assert(regions.contains(a));
            lemma_region_within(last, bytes, a);
            if carved(rest, bytes).count(a) > 0 {
                let i = lemma_carved_within(rest, bytes, a);
                assert(disjoint(areas[i], areas[areas.len() - 1]));
            }
            if carved(rest, bytes).count(b) > 0 {
                let i = lemma_carved_within(rest, bytes, b);
                assert(disjoint(areas[i], areas[areas.len() - 1]));
            }
        }
        if regions.to_multiset().count(b) > 0 {
            assert(regions.contains(b));
            lemma_region_within(last, bytes, b);
            if carved(rest, bytes).count(a) > 0 {
                let i = lemma_carved_within(rest, bytes, a);
                assert(disjoint(areas[i], areas[areas.len() - 1]));
            }
            if regions.to_multiset().count(a) > 0 && a != b {
                assert(regions.contains(a));
                lemma_regions_disjoint(last, bytes, a, b);
            }
        }
    }
}

/// No memory is handed out twice: a region that is out is out once and is not free, and shares no
/// byte with another region that is out or free.
pub proof fn law_memory_is_exclusive(pool: ClassView, out: Multiset<Region>, a: Region, b: Region)
    requires
        usize::BITS == 64,
        pool.wf(),
        all_disjoint(pool.areas),
        balanced(pool, out),
        out.count(a) > 0,
    ensures
        out.count(a) == 1,
        pool.free().count(a) == 0,
        a != b && (out.count(b) > 0 || pool.free().count(b) > 0) ==> disjoint(a, b),
{
    broadcast use vstd::multiset::group_multiset_axioms;
    lemma_class_bytes(pool.exponent);
    lemma_carved_disjoint(pool.areas, pool.bytes(), a, b);
    let all = pool.free().add(out);
    assert(all.count(a) == pool.free().count(a) + out.count(a));
    assert(all.count(b) == pool.free().count(b) + out.count(b));
}

/// Pools of different classes share no memory, where their areas do not.
pub proof fn law_classes_share_no_memory(
    pool: ClassView,
    other: ClassView,
    out: Multiset<Region>,
    other_out: Multiset<Region>,
    a: Region,
    b: Region,
)
    requires
        usize::BITS == 64,
        pool.wf(),
        other.wf(),
        forall|i: int, j: int|
            0 <= i < pool.areas.len() && 0 <= j < other.areas.len() ==> disjoint(
                #[trigger] pool.areas[i],
                #[trigger] other.areas[j],
            ),
        balanced(pool, out),
        balanced(other, other_out),
        out.count(a) > 0,
        other_out.count(b) > 0,
    ensures
        disjoint(a, b),
{
    broadcast use vstd::multiset::group_multiset_axioms;
    lemma_class_bytes(pool.exponent);
    lemma_class_bytes(other.exponent);
    assert(pool.free().add(out).count(a) > 0);
    assert(other.free().add(other_out).count(b) > 0);
    let i = lemma_carved_within(pool.areas, pool.bytes(), a);
    let j = lemma_carved_within(other.areas, other.bytes(), b);
    assert(disjoint(pool.areas[i], other.areas[j]));
}

/// The bytes of an area, by their addresses.
spec fn span(area: Region) -> Set<int> {
    set_int_range(area.0 as int, area.0 + area.1)
}

/// The bytes of some areas, by their addresses.
spec fn spans(areas: Seq<Region>) -> Set<int>
    decreases areas.len(),
{
    if areas.len() == 0 {
        Set::empty()
    } else {
        spans(areas.drop_last()) + span(areas.last())
    }
}

/// Disjoint areas have as many bytes as all of them together.
proof fn lemma_spans(areas: Seq<Region>)
    requires
        all_disjoint(areas),
    ensures
        spans(areas).finite(),
        spans(areas).len() == area_bytes(areas),
        forall|addr: int| #[trigger]
            spans(areas).contains(addr) ==> exists|i: int|
                0 <= i < areas.len() && (#[trigger] areas[i]).0 <= addr < areas[i].0 + areas[i].1,
    decreases areas.len(),
{
    if areas.len() > 0 {
        let last = areas.last();
        let rest = areas.drop_last();
        assert forall|i: int, j: int| 0 <= i < j < rest.len() implies disjoint(
            #[trigger] rest[i],
            #[trigger] rest[j],
        ) by {
            assert(disjoint(areas[i], areas[j]));
        }
        lemma_spans(rest);
        lemma_int_range(last.0 as int, last.0 + last.1);
        assert(spans(rest).disjoint(span(last))) by {
            assert forall|addr: int| spans(rest).contains(addr) implies !span(last).contains(addr) by {
                let i = choose|i: int|
                    0 <= i < rest.len() && (#[trigger] rest[i]).0 <= addr < rest[i].0 + rest[i].1;
                assert(disjoint(areas[i], areas[areas.len() - 1]));
            }
        }
        lemma_set_disjoint_lens(spans(rest), span(last));
        assert forall|addr: int| #[trigger] spans(areas).contains(addr) implies exists|i: int|
            0 <= i < areas.len() && (#[trigger] areas[i]).0 <= addr < areas[i].0 + areas[i].1 by {
            if spans(rest).contains(addr) {
                let i = choose|i: int|
                    0 <= i < rest.len() && (#[trigger] rest[i]).0 <= addr < rest[i].0 + rest[i].1;
                assert(areas[i].0 <= addr < areas[i].0 + areas[i].1);
            } else {
                assert(areas[areas.len() - 1].0 <= addr < areas[areas.len() - 1].0 + areas[areas.len() - 1].1);
            }
        }
    } else {
        assert(spans(areas) =~= Set::empty());
    }
}

/// The bytes of areas that have none in common can be counted in a machine word.
pub proof fn law_areas_can_be_counted(pool: ClassView)
    requires
        pool.wf(),
        all_disjoint(pool.areas),
    ensures
        area_bytes(pool.areas) <= usize::MAX,
{
    let areas = pool.areas;
    let memory = set_int_range(0, usize::MAX as int);
    lemma_spans(areas);
    lemma_int_range(0, usize::MAX as int);
    assert(spans(areas).subset_of(memory)) by {
        assert forall|addr: int| spans(areas).contains(addr) implies memory.contains(addr) by {
            let i = choose|i: int|
                0 <= i < areas.len() && (#[trigger] areas[i]).0 <= addr < areas[i].0 + areas[i].1;
            assert(is_area(areas[i], pool.bytes()));
        }
    }
    lemma_len_subset(spans(areas), memory);
}

/// Areas are cut into as many regions as they have room for.
pub proof fn lemma_carved_len(areas: Seq<Region>, bytes: nat)
    requires
        forall|i: int| 0 <= i < areas.len() ==> is_area(#[trigger] areas[i], bytes),
        0 < bytes,
    ensures
        carved(areas, bytes).len() * bytes == area_bytes(areas),
    decreases areas.len(),
{
    broadcast use {vstd::multiset::group_multiset_axioms, vstd::seq_lib::group_to_multiset_ensures};
    if areas.len() > 0 {
        let last = areas.last();
        let rest = areas.drop_last();
        assert forall|i: int| 0 <= i < rest.len() implies is_area(#[trigger] rest[i], bytes) by {
            assert(is_area(areas[i], bytes));
        }
        lemma_carved_len(rest, bytes);
        assert(is_area(areas[areas.len() - 1], bytes));
        let n = regions_of(last, bytes).len();
        let m = carved(rest, bytes).len();
        assert(n * bytes == last.1) by {
            vstd::arithmetic::div_mod::lemma_fundamental_div_mod(last.1 as int, bytes as int);
            vstd::arithmetic::mul::lemma_mul_is_commutative(n as int, bytes as int);
        }
        assert((m + n) * bytes == m * bytes + n * bytes) by (nonlinear_arith);
    }
}

/// Of a pool without memory nothing is out.
pub proof fn law_new_pool_is_balanced(exponent: nat)
    ensures
        balanced(empty_class(exponent), Multiset::empty()),
{
    broadcast use {vstd::multiset::group_multiset_axioms, vstd::seq_lib::group_to_multiset_ensures};
    let pool = empty_class(exponent);
    assert(pool.free() =~= Multiset::empty());
    assert(pool.free().add(Multiset::empty()) =~= Multiset::empty());
}

/// A region that is handed out of the pool is out from then on, and nothing else is.
pub proof fn law_balance_kept_by_allocation(
    before: ClassView,
    after: ClassView,
    who: int,
    refill: RefillView,
    local_buffer_bytes: nat,
    dampener: usize,
    out: Multiset<Region>,
)
    requires
        before.wf(),
        0 <= who < before.locals.len(),
        before.allocates(after, who, refill, local_buffer_bytes, dampener),
        balanced(before, out),
    ensures
        match refill {
            RefillView::Ready(region) => balanced(after, out.insert(region)),
            RefillView::NeedArea(_) => balanced(after, out),
            RefillView::Again => balanced(after, out),
        },
{
    broadcast use vstd::multiset::group_multiset_axioms;
    lemma_allocates(before, after, who, refill, local_buffer_bytes, dampener);
    if let RefillView::Ready(region) = refill {
        assert(after.free().add(out.insert(region)) =~= after.free().insert(region).add(out));
    }
}

/// Of an area that comes in, the first region is out, and the others are free.
pub proof fn law_balance_kept_by_refill(pool: ClassView, area: Region, out: Multiset<Region>)
    requires
        usize::BITS == 64,
        pool.wf(),
        is_area(area, pool.bytes()),
        balanced(pool, out),
    ensures
        balanced(pool.refilled(area), out.insert(regions_of(area, pool.bytes())[0])),
{
    broadcast use vstd::multiset::group_multiset_axioms;
    let after = pool.refilled(area);
    let first = regions_of(area, pool.bytes())[0];
    let regions = regions_of(area, pool.bytes()).to_multiset();
    lemma_refilled(pool, area);
    assert(after.areas.drop_last() =~= pool.areas);
    assert(after.free().add(out.insert(first)) =~= after.free().insert(first).add(out));
    assert(pool.free().add(regions).add(out) =~= pool.free().add(out).add(regions));
}

/// A region that comes back is no longer out; one that is cleared first is out until then.
pub proof fn law_balance_kept_by_release(
    pool: ClassView,
    who: int,
    region: Region,
    local_buffer_bytes: nat,
    eager: bool,
    out: Multiset<Region>,
)
    requires
        pool.wf(),
        0 <= who < pool.locals.len(),
        crate::model::is_region(region, pool.bytes()),
        balanced(pool, out),
        out.count(region) > 0,
    ensures
        ({
            let after = pool.recycled(who, region, local_buffer_bytes, eager);
            if eager && !pool.cache_has_room(who, local_buffer_bytes) {
                &&& balanced(after, out)
                &&& balanced(ClassView { global: after.global.push(region), ..after }, out.remove(region))
            } else {
                balanced(after, out.remove(region))
            }
        }),
{
    broadcast use {vstd::multiset::group_multiset_axioms, vstd::seq_lib::group_to_multiset_ensures};
    let after = pool.recycled(who, region, local_buffer_bytes, eager);
    lemma_recycled(pool, who, region, local_buffer_bytes, eager);
    if eager && !pool.cache_has_room(who, local_buffer_bytes) {
        let shared = ClassView { global: after.global.push(region), ..after };
        assert(shared.free() =~= after.free().insert(region));
        assert(shared.free().add(out.remove(region)) =~= pool.free().add(out));
    } else {
        assert(after.free().add(out.remove(region)) =~= pool.free().add(out));
    }
}

/// Threads come and go without effect on what is out.
pub proof fn law_balance_kept_by_threads(pool: ClassView, who: int, newcomer: u64, out: Multiset<Region>)
    requires
        pool.wf(),
        balanced(pool, out),
    ensures
        0 <= who < pool.locals.len() ==> balanced(pool.without_thread(who), out),
        !pool.has_thread(newcomer) ==> balanced(pool.with_thread(newcomer), out),
{
    if 0 <= who < pool.locals.len() {
        lemma_without_thread(pool, who);
    }
    if !pool.has_thread(newcomer) {
        lemma_with_thread(pool, newcomer);
    }
}

/// Regions that the background worker takes are out until it brings them back.
pub proof fn law_balance_kept_by_sweep(pool: ClassView, taken: nat, out: Multiset<Region>)
    requires
        pool.wf(),
        taken <= pool.global.len(),
        balanced(pool, out),
    ensures
        ({
            let batch = pool.global.subrange(0, taken as int);
            &&& balanced(pool.swept(taken), out.add(batch.to_multiset()))
            &&& balanced(pool.swept(taken).cleaned(batch), out)
        }),
{
    broadcast use vstd::multiset::group_multiset_axioms;
    let batch = pool.global.subrange(0, taken as int);
    let swept = pool.swept(taken);
    lemma_sweep(pool, taken);
    assert(all_regions(batch, pool.bytes()));
    lemma_cleaned(swept, batch);
    assert(swept.free().add(out.add(batch.to_multiset())) =~= swept.free().add(batch.to_multiset()).add(out));
}

} // verus!
