//! Allocation of memory for elements of a type.
use crate::advise::DANGLING;
use crate::buffer::fits;
use crate::class_state::Refill;
use crate::config::Settings;
use crate::error::AllocError;
use crate::handle::Handle;
use crate::model::{
    is_area, is_region, lemma_allocates, lemma_next_area, lemma_refilled, regions_of, ClassView, RefillView,
    Region,
};
use crate::pool::{clears_first, is_pool_region, registered, returned, GlobalStealer, ThreadLocalStealer};
use crate::size_class::{
    class_for, in_valid_range, law_class_is_unique, lemma_class_bytes, lemma_has_class, SizeClass,
    VALID_SIZE_CLASS,
};
use vstd::arithmetic::power2::pow2;
use vstd::layout::{align_of, size_of};
use vstd::prelude::*;

verus! {

/// What becomes of a request to the allocator.
pub enum Step<R> {
    /// It is answered.
    Done(R),
    /// Its pool is empty. An area of memory is to be mapped and handed to [`allocate_mapped`].
    NeedArea(AreaRequest),
    /// It is answered. The memory of the handle is to be cleared with [`Handle::fast_clear`] and
    /// handed to [`GlobalStealer::return_cleared`].
    Clear(Handle, R),
    /// The shared queues asked for another attempt to the last. Nothing happened, and the request is
    /// to be repeated.
    Again,
}

/// An area of memory that is to be mapped.
#[derive(Clone, Copy, Debug)]
pub struct AreaRequest {
    /// The size class that the area is for.
    pub size_class: SizeClass,
    /// The length of the area in bytes.
    pub len: usize,
}

/// Address of the memory, capacity in elements, and handle of an allocation.
pub type Allocation = (usize, usize, Handle);

/// The bytes to ask for, with the size of an element, a number of elements and the page size: at
/// least a page. What no machine word can hold counts as the largest word.
pub open spec fn bytes_needed(size: nat, capacity: usize, page: usize) -> nat {
    let bytes = if size * capacity <= usize::MAX {
        size * capacity as nat
    } else {
        usize::MAX as nat
    };
    if bytes > page {
        bytes
    } else {
        page as nat
    }
}

/// What is handed out is memory of a pool or none at all, and has room for as many elements as it
/// says. What is to be cleared is memory of a pool, and an area that is to be mapped can be cut into
/// the regions of its class.
pub open spec fn step_wf<T>(step: Step<Result<Allocation, AllocError>>) -> bool {
    match step {
        Step::Done(Ok((_, capacity, handle))) => (handle@.0 == DANGLING || is_pool_region(handle@)) && fits::<T>(
            handle@,
            capacity,
        ),
        Step::Done(Err(_)) => true,
        Step::Again => true,
        Step::NeedArea(request) => {
            &&& request.size_class.valid()
            &&& request.len >= request.size_class.bytes()
            &&& request.len as nat % request.size_class.bytes() == 0
        },
        Step::Clear(handle, _) => is_pool_region(handle@),
    }
}

/// The answer has room for `capacity` elements of `T`, or an area with regions for so many is to be
/// mapped. Memory that is asked for is memory of a pool.
pub open spec fn step_suffices<T>(capacity: usize, step: Step<Result<Allocation, AllocError>>) -> bool {
    match step {
        Step::Done(Ok((_, actual, handle))) => {
            &&& actual >= capacity
            &&& handle@.0 == DANGLING <==> capacity == 0 || size_of::<T>() == 0
        },
        Step::NeedArea(request) => size_of::<T>() > 0 && size_of::<T>() * capacity <= request.size_class.bytes(),
        _ => true,
    }
}

/// What elements of a type need.
pub struct Shape {
    /// Their size in bytes.
    pub size: nat,
    /// Their alignment in bytes.
    pub align: nat,
}

/// What elements of `T` need.
pub open spec fn shape_of<T>() -> Shape {
    Shape { size: size_of::<T>(), align: align_of::<T>() }
}

/// A region was taken from its pool for elements of a shape: it is handed out where it is aligned for
/// them, else it goes back.
pub open spec fn region_placed(
    shape: Shape,
    before: Seq<ClassView>,
    after: Seq<ClassView>,
    thread_id: u64,
    settings: Settings,
    region: Region,
    step: Step<Result<Allocation, AllocError>>,
) -> bool {
    if region.0 as nat % shape.align == 0 {
        &&& after == before
        &&& step matches Step::Done(Ok((addr, capacity, handle))) && addr == region.0 && capacity
            == region.1 as nat / shape.size && handle@ == region
    } else {
        &&& after == returned(before, thread_id, region, settings)
        &&& if clears_first(before, thread_id, region, settings) {
            step matches Step::Clear(handle, Err(e)) && handle@ == region && e is UnalignedMemory
        } else {
            step matches Step::Done(Err(e)) && e is UnalignedMemory
        }
    }
}

/// The request for a region of a class, and what comes of its answer.
pub open spec fn class_answered(
    shape: Shape,
    before: Seq<ClassView>,
    after: Seq<ClassView>,
    thread_id: u64,
    settings: Settings,
    class: nat,
    pool: ClassView,
    answer: RefillView,
    step: Step<Result<Allocation, AllocError>>,
) -> bool {
    let index = class - VALID_SIZE_CLASS.start;
    &&& before[index].allocates(
        pool,
        before[index].slot(thread_id),
        answer,
        settings.local_buffer_bytes as nat,
        settings.growth_dampener,
    )
    &&& match answer {
        RefillView::Ready(region) => region_placed(
            shape,
            before.update(index, pool),
            after,
            thread_id,
            settings,
            region,
            step,
        ),
        RefillView::NeedArea(len) => {
            &&& after == before.update(index, pool)
            &&& step matches Step::NeedArea(request) && request.size_class.exponent() == class && request.len
                == len
        },
        RefillView::Again => after == before && step is Again,
    }
}

/// What becomes of a request for `capacity` elements of a shape on a system with the given page size.
pub open spec fn allocate_outcome(
    shape: Shape,
    before: Seq<ClassView>,
    after: Seq<ClassView>,
    thread_id: u64,
    settings: Settings,
    capacity: usize,
    page: usize,
    step: Step<Result<Allocation, AllocError>>,
) -> bool {
    let class = class_for(bytes_needed(shape.size, capacity, page));
    if (shape.size == 0 || capacity == 0) && settings.enabled {
        &&& after == before
        &&& step matches Step::Done(Ok((addr, actual, handle))) && addr == shape.align && actual == (
        if shape.size == 0 {
            usize::MAX
        } else {
            0
        }) && handle@ == (DANGLING, 0usize)
    } else if shape.size > 0 && capacity > 0 && !in_valid_range(class as int) {
        &&& after == before
        &&& step matches Step::Done(Err(AllocError::InvalidSizeClass(c))) && c == class
    } else if !settings.enabled {
        &&& after == before
        &&& step matches Step::Done(Err(e)) && e is Disabled
    } else {
        exists|pool: ClassView, answer: RefillView| #[trigger]
            class_answered(shape, before, after, thread_id, settings, class, pool, answer, step)
    }
}

/// `page_size::get`: the system's page size. Nothing is claimed of it.
#[verifier::external_body]
fn system_page_size() -> (bytes: usize) {
    page_size::get()
}

/// The page size is one that the system gives.
pub closed spec fn is_system_page(page: usize) -> bool {
    call_ensures(system_page_size, (), page)
}

/// Hand a region out for elements of `T`, or return it where its alignment does not suit them.
fn place_region<T>(
    thread: &ThreadLocalStealer,
    global: &mut GlobalStealer,
    settings: Settings,
    handle: Handle,
) -> (step: Step<Result<Allocation, AllocError>>)
    requires
        old(global).wf(),
        registered(old(global)@, thread@),
        is_pool_region(handle@),
        size_of::<T>() > 0,
    ensures
        final(global).wf(),
        registered(final(global)@, thread@),
        region_placed(shape_of::<T>(), old(global)@, final(global)@, thread@, settings, handle@, step),
        step_wf::<T>(step),
{
    vstd::layout::layout_for_type_is_valid::<T>();
    let addr: usize = handle.addr();
    // Memory regions are page-aligned, which we assume to be larger than any alignment we might
    // encounter. If this is not the case, bail out.
    if addr % core::mem::align_of::<T>() != 0 {
        return match thread.deallocate(global, settings, handle) {
            Some(to_clear) => Step::Clear(to_clear, Err(AllocError::UnalignedMemory)),
            None => Step::Done(Err(AllocError::UnalignedMemory)),
        };
    }
    let capacity: usize = handle.len() / core::mem::size_of::<T>();
    proof {
        lemma_whole_elements(handle@.1 as nat, size_of::<T>(), 0);
    }
    Step::Done(Ok((addr, capacity, handle)))
}

/// Allocate a memory area suitable to hold `capacity` consecutive elements of `T`, on a system
/// with the given page size. See [`allocate`].
pub fn allocate_with_page<T>(
    thread: &ThreadLocalStealer,
    global: &mut GlobalStealer,
    settings: Settings,
    capacity: usize,
    page: usize,
) -> (step: Step<Result<Allocation, AllocError>>)
    requires
        old(global).wf(),
        registered(old(global)@, thread@),
    ensures
        final(global).wf(),
        registered(final(global)@, thread@),
        allocate_outcome(shape_of::<T>(), old(global)@, final(global)@, thread@, settings, capacity, page, step),
        step_wf::<T>(step),
        step_suffices::<T>(capacity, step),
{
    proof {
        global.lemma_wf();
    }
    let size: usize = core::mem::size_of::<T>();
    if (size == 0 || capacity == 0) && !settings.enabled {
        return Step::Done(Err(AllocError::Disabled));
    }
    if size == 0 {
        return Step::Done(Ok((core::mem::align_of::<T>(), usize::MAX, Handle::dangling())));
    } else if capacity == 0 {
        return Step::Done(Ok((core::mem::align_of::<T>(), 0, Handle::dangling())));
    }
    let bytes: usize = match size.checked_mul(capacity) {
        Some(bytes) => bytes,
        None => usize::MAX,
    };
    // Round up to at least a page.
    let byte_len: usize = if bytes > page {
        bytes
    } else {
        page
    };
    let ghost class = class_for(bytes_needed(size_of::<T>(), capacity, page));
    let size_class: SizeClass = match SizeClass::from_byte_size(byte_len) {
        Ok(size_class) => size_class,
        Err(e) => {
            proof {
                if let AllocError::InvalidSizeClass(c) = e {
                    law_class_is_unique(c as nat, byte_len as nat);
                }
            }
            return Step::Done(Err(e));
        },
    };
    proof {
        law_class_is_unique(size_class.exponent(), byte_len as nat);
        assert(class == size_class.exponent());
        lemma_has_class(byte_len as nat);
        lemma_class_bytes(class);
        assert(size_of::<T>() * capacity <= size_class.bytes());
    }
    let ghost index = class - VALID_SIZE_CLASS.start;
    match thread.allocate(global, settings, size_class) {
        Err(e) => Step::Done(Err(e)),
        Ok(Refill::Ready(handle)) => {
            let ghost pool = global@[index];
            let ghost middle = global@;
            proof {
                let slot = old(global)@[index].slot(thread@);
                assert(old(global)@[index].has_thread(thread@));
                lemma_allocates(
                    old(global)@[index],
                    pool,
                    slot,
                    RefillView::Ready(handle@),
                    settings.local_buffer_bytes as nat,
                    settings.growth_dampener,
                );
                assert(is_region(handle@, pow2(class)));
            }
            let ghost region = handle@;
            let step = place_region::<T>(thread, global, settings, handle);
            proof {
                lemma_whole_elements(region.1 as nat, size_of::<T>(), capacity);
                assert(middle =~= old(global)@.update(index, pool));
                assert(class_answered(
                    shape_of::<T>(),
                    old(global)@,
                    global@,
                    thread@,
                    settings,
                    class,
                    pool,
                    RefillView::Ready(region),
                    step,
                ));
            }
            step
        },
        Ok(Refill::Again) => {
            let step = Step::Again;
            proof {
                assert(global@ =~= old(global)@);
                assert(class_answered(
                    shape_of::<T>(),
                    old(global)@,
                    global@,
                    thread@,
                    settings,
                    class,
                    global@[index],
                    RefillView::Again,
                    step,
                ));
            }
            step
        },
        Ok(Refill::NeedArea(len)) => {
            let step = Step::NeedArea(AreaRequest { size_class, len });
            proof {
                let pool = global@[index];
                assert(old(global)@[index].wf() && old(global)@[index].exponent == class);
                lemma_next_area(old(global)@[index], settings.growth_dampener);
                assert(class_answered(
                    shape_of::<T>(),
                    old(global)@,
                    global@,
                    thread@,
                    settings,
                    class,
                    pool,
                    RefillView::NeedArea(len),
                    step,
                ));
            }
            step
        },
    }
}

/// Allocate a memory area suitable to hold `capacity` consecutive elements of `T`.
///
/// Answers with an address, a capacity in `T`, and a handle if successful, and an error
/// otherwise. The capacity can be larger than requested. Where the pool is empty, an area is to
/// be mapped and handed to [`allocate_mapped`].
///
/// The memory of a handle goes back to the pool with [`ThreadLocalStealer::release`], on any
/// thread.
///
/// # Errors
///
/// Allocate errors if the capacity cannot be supported by one of the size classes, the alignment
/// requirements of `T` cannot be fulfilled, or if the allocator is disabled, whatever is asked for.
/// A capacity that no size class supports is told even then.
///
/// In the case of an error, no memory is allocated.
pub fn allocate<T>(
    thread: &ThreadLocalStealer,
    global: &mut GlobalStealer,
    settings: Settings,
    capacity: usize,
) -> (step: Step<Result<Allocation, AllocError>>)
    requires
        old(global).wf(),
        registered(old(global)@, thread@),
    ensures
        final(global).wf(),
        registered(final(global)@, thread@),
        exists|page: usize|
            is_system_page(page) && #[trigger] allocate_outcome(
                shape_of::<T>(),
                old(global)@,
                final(global)@,
                thread@,
                settings,
                capacity,
                page,
                step,
            ),
        step_wf::<T>(step),
        step_suffices::<T>(capacity, step),
{
    let page: usize = system_page_size();
    allocate_with_page::<T>(thread, global, settings, capacity, page)
}

/// Go on with an allocation for which an area of memory had to be mapped.
///
/// # Errors
///
/// Errors if the area could not be mapped, or if the alignment requirements of `T` cannot be
/// fulfilled.
pub fn allocate_mapped<T>(
    thread: &ThreadLocalStealer,
    global: &mut GlobalStealer,
    settings: Settings,
    request: AreaRequest,
    mapped: Result<usize, std::io::Error>,
) -> (step: Step<Result<Allocation, AllocError>>)
    requires
        old(global).wf(),
        registered(old(global)@, thread@),
        size_of::<T>() > 0,
        request.size_class.valid(),
        mapped matches Ok(addr) ==> is_area((addr, request.len), request.size_class.bytes()),
    ensures
        final(global).wf(),
        registered(final(global)@, thread@),
        match mapped {
            Ok(addr) => {
                let area = (addr, request.len);
                let index = request.size_class.exponent() - VALID_SIZE_CLASS.start;
                region_placed(
                    shape_of::<T>(),
                    old(global)@.update(index, old(global)@[index].refilled(area)),
                    final(global)@,
                    thread@,
                    settings,
                    regions_of(area, request.size_class.bytes())[0],
                    step,
                )
            },
            Err(e) => {
                &&& final(global)@ == old(global)@
                &&& step == Step::Done(Err::<Allocation, AllocError>(AllocError::Io(e)))
            },
        },
        step_wf::<T>(step),
        !(step is NeedArea) && !(step is Again),
        forall|capacity: usize|
            0 < capacity && size_of::<T>() * capacity <= request.size_class.bytes()
                ==> #[trigger] step_suffices::<T>(capacity, step),
{
    proof {
        global.lemma_wf();
        let index = request.size_class.exponent() - VALID_SIZE_CLASS.start;
        if let Ok(addr) = mapped {
            assert(old(global)@[index].exponent == request.size_class.exponent());
            lemma_refilled(old(global)@[index], (addr, request.len));
        }
    }
    match global.complete_refill(request.size_class, request.len, mapped) {
        Ok(handle) => {
            proof {
                assert(is_region(handle@, pow2(request.size_class.exponent())));
                assert forall|i: int| 0 <= i < global@.len() implies (#[trigger] global@[i]).has_thread(
                    thread@,
                ) by {
                    assert(old(global)@[i].has_thread(thread@));
                    let slot = old(global)@[i].slot(thread@);
                    assert(global@[i].locals[slot].thread_id == thread@);
                }
            }
            let ghost region = handle@;
            let step = place_region::<T>(thread, global, settings, handle);
            proof {
                assert forall|capacity: usize|
                    0 < capacity && size_of::<T>() * capacity
                        <= request.size_class.bytes() implies #[trigger] step_suffices::<T>(capacity, step) by {
                    lemma_whole_elements(region.1 as nat, size_of::<T>(), capacity);
                }
            }
            step
        },
        Err(e) => Step::Done(Err(e)),
    }
}

/// A region holds as many whole elements as fit.
proof fn lemma_whole_elements(len: nat, size: nat, capacity: usize)
    requires
        size > 0,
    ensures
        len >= size * capacity ==> len / size >= capacity,
        len / size * size <= len,
{
    assert(len / size * size <= len && (len >= size * capacity ==> len / size >= capacity)) by (nonlinear_arith)
        requires
            size > 0,
    ;
}

/// An allocation has room for as many elements as were asked for, and for no more than its region
/// holds.
pub proof fn law_capacity_suffices(size: nat, capacity: usize, page: usize, region: Region)
    requires
        size > 0,
        size * capacity <= usize::MAX,
        is_region(region, pow2(class_for(bytes_needed(size, capacity, page)))),
    ensures
        region.1 as nat / size >= capacity,
        region.1 as nat / size * size <= region.1,
{
    lemma_has_class(bytes_needed(size, capacity, page));
    lemma_whole_elements(region.1 as nat, size, capacity);
}

} // verus!
