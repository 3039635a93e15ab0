//! Fixed-capacity buffers, backed by the allocator when possible and by the heap otherwise.
use crate::advise::{advise_outcome, restore_from, restore_hints, Advice, Hint, DANGLING};
use crate::error::{AdviseError, AllocError};
use crate::handle::Handle;
use crate::model::Region;
use core::mem::ManuallyDrop;
use core::ops::Range;
use vstd::layout::size_of;
use vstd::prelude::*;

verus! {

/// A product as far as a machine word can hold it.
pub open spec fn saturated(product: nat) -> usize {
    if product <= usize::MAX {
        product as usize
    } else {
        usize::MAX
    }
}

/// The product, or the largest machine word where it is beyond that.
fn saturating_product(a: usize, b: usize) -> (product: usize)
    ensures
        product == saturated(a as nat * b as nat),
{
    match a.checked_mul(b) {
        Some(product) => product,
        None => {
            assert(a * b > usize::MAX);
            usize::MAX
        },
    }
}

/// What becomes of an advice on a range of elements of `size` bytes, in a buffer with room for
/// `capacity` ones that is backed by the given region, or by the heap. A range that ends before it
/// starts, or that has no byte range, is refused; on the heap nothing is issued.
pub open spec fn element_outcome(
    size: nat,
    capacity: usize,
    region: Option<Region>,
    range: Range<usize>,
    advice: Advice,
) -> Result<Option<Hint>, AdviseError> {
    let start = range.start * size;
    let end = range.end * size;
    let room = saturated(capacity as nat * size);
    if start > usize::MAX || range.end < range.start || end - start > usize::MAX {
        Err(
            AdviseError::OutOfBounds {
                byte_offset: saturated(start as nat),
                byte_len: if saturated(end as nat) > saturated(start as nat) {
                    (saturated(end as nat) - saturated(start as nat)) as usize
                } else {
                    0
                },
                allocation_len: room,
            },
        )
    } else {
        let offset = start as usize;
        let len = (end - start) as usize;
        match region {
            Some(region) => advise_outcome(region, offset, len, advice),
            None => if offset + len > room {
                Err(AdviseError::OutOfBounds { byte_offset: offset, byte_len: len, allocation_len: room })
            } else {
                Ok(None)
            },
        }
    }
}

/// The same for a buffer of which the first `len` elements are in use: beyond them all is refused.
pub open spec fn prefix_outcome(
    size: nat,
    len: nat,
    capacity: usize,
    region: Option<Region>,
    range: Range<usize>,
    advice: Advice,
) -> Result<Option<Hint>, AdviseError> {
    if range.end > len {
        Err(
            AdviseError::OutOfBounds {
                byte_offset: saturated(range.start as nat * size),
                byte_len: saturated(crate::handle::range_len(range) * size),
                allocation_len: saturated(len * size),
            },
        )
    } else {
        element_outcome(size, capacity, region, range, advice)
    }
}

/// What brings a range back as huge pages, given what becomes of paging it in.
pub open spec fn restored(
    outcome: Result<Option<Hint>, AdviseError>,
    hints: Result<Vec<Hint>, AdviseError>,
) -> bool {
    match outcome {
        Ok(hint) => hints matches Ok(list) && list@ == restore_hints(hint),
        Err(e) => hints == Err::<Vec<Hint>, AdviseError>(e),
    }
}

/// An advice on a range of elements of `T`, in a buffer with room for `capacity` ones that is backed
/// by the memory of the handle, or by the heap.
fn advise_elements<T>(
    handle: &Option<Handle>,
    capacity: usize,
    range: Range<usize>,
    advice: Advice,
) -> (outcome: Result<Option<Hint>, AdviseError>)
    ensures
        outcome == element_outcome(size_of::<T>(), capacity, handle_region(*handle), range, advice),
{
    let elem_size: usize = core::mem::size_of::<T>();
    let allocation_len: usize = saturating_product(capacity, elem_size);
    let byte_offset: Option<usize> = range.start.checked_mul(elem_size);
    let byte_len: Option<usize> = if range.end >= range.start {
        (range.end - range.start).checked_mul(elem_size)
    } else {
        None
    };
    proof {
        let (start, end, size) = (range.start as int, range.end as int, elem_size as int);
        assert(end * size - start * size == (end - start) * size) by (nonlinear_arith);
        assert(end >= start ==> (end - start) * size >= 0) by (nonlinear_arith)
            requires
                size >= 0,
        ;
        assert(start * size >= 0 && end * size >= 0) by (nonlinear_arith)
            requires
                size >= 0,
                start >= 0,
                end >= 0,
        ;
    }
    match (byte_offset, byte_len) {
        (Some(byte_offset), Some(byte_len)) => match handle {
            Some(handle) => handle.advise_bytes(byte_offset, byte_len, advice),
            None => match byte_offset.checked_add(byte_len) {
                Some(end) if end <= allocation_len => Ok(None),
                _ => Err(AdviseError::OutOfBounds { byte_offset, byte_len, allocation_len }),
            },
        },
        _ => {
            let start: usize = saturating_product(range.start, elem_size);
            let end: usize = saturating_product(range.end, elem_size);
            Err(
                AdviseError::OutOfBounds {
                    byte_offset: start,
                    byte_len: end.saturating_sub(start),
                    allocation_len,
                },
            )
        },
    }
}

/// The room for `n` elements of `T` on the heap: `n`, but without limit for elements without size.
pub open spec fn heap_room<T>(n: usize) -> usize {
    if size_of::<T>() == 0 {
        usize::MAX
    } else {
        n
    }
}

/// Fixed-capacity allocation. Pool-backed when possible, heap fallback otherwise.
///
/// The storage is the vector that the memory came with, which never holds more elements than the
/// capacity. The elements that it holds are the initialized ones. They are not dropped with the
/// buffer, and [`RawBuffer::release`] gives its memory back.
pub struct RawBuffer<T> {
    handle: Option<Handle>,
    storage: ManuallyDrop<Vec<T>>,
    capacity: usize,
}

impl<T> RawBuffer<T> {
    /// The initialized elements.
    pub closed spec fn contents(self) -> Seq<T> {
        self.storage@@
    }

    /// The vector whose memory holds the elements.
    pub closed spec fn backing(self) -> Vec<T> {
        self.storage@
    }

    /// The capacity, in elements.
    pub closed spec fn room(self) -> usize {
        self.capacity
    }

    /// The region that backs the buffer, unless it is on the heap. For a buffer without memory it
    /// is a dangling one.
    pub closed spec fn region(self) -> Option<Region> {
        match self.handle {
            Some(handle) => Some(handle@),
            None => None,
        }
    }

    /// The initialized elements are within the capacity, and the capacity within the region.
    pub open spec fn wf(self) -> bool {
        &&& self.contents().len() <= self.room()
        &&& self.region() matches Some(region) ==> fits::<T>(region, self.room())
    }

    /// Allocate `n` elements of `T`, given what came of asking the allocator for them: falls back
    /// to heap on allocation failure. What the allocator gave is a vector without elements over
    /// its memory, its capacity, and its handle.
    pub fn with_capacity(n: usize, allocated: Result<(Vec<T>, usize, Handle), AllocError>) -> (buffer: Self)
        requires
            allocated is Err ==> n * size_of::<T>() <= isize::MAX,
            allocation_given(n, allocated),
        ensures
            buffer.wf(),
            buffer.contents() == Seq::<T>::empty(),
            buffer.room() >= n,
            n > 0 && size_of::<T>() > 0 ==> (pool_backed(buffer.region()) <==> allocated is Ok),
            match allocated {
                Ok((storage, capacity, handle)) => buffer.room() == capacity && buffer.region() == Some(handle@)
                    && buffer.backing() == storage,
                Err(_) => buffer.region() is None && buffer.room() == heap_room::<T>(n),
            },
    {
        match Self::try_lgalloc(n, allocated) {
            Ok(buffer) => buffer,
            Err(_) => Self::heap(n),
        }
    }

    /// Allocate `n` elements of `T` from the allocator, given what came of asking it for them. See
    /// [`RawBuffer::with_capacity`].
    ///
    /// # Errors
    ///
    /// Returns the allocator's error.
    pub fn try_lgalloc(n: usize, allocated: Result<(Vec<T>, usize, Handle), AllocError>) -> (buffer: Result<
        Self,
        AllocError,
    >)
        requires
            allocation_given(n, allocated),
        ensures
            match allocated {
                Ok((storage, capacity, handle)) => buffer matches Ok(raw) && raw.wf() && raw.contents()
                    == Seq::<T>::empty() && raw.room() == capacity && raw.room() >= n && raw.region() == Some(
                    handle@,
                ) && raw.backing() == storage,
                Err(e) => buffer == Err::<Self, AllocError>(e),
            },
    {
        match allocated {
            Ok((storage, capacity, handle)) => {
                assert(storage@ =~= Seq::empty());
                Ok(Self { handle: Some(handle), storage: ManuallyDrop::new(storage), capacity })
            },
            Err(e) => Err(e),
        }
    }

    /// Allocate `n` elements of `T` from the system heap.
    pub fn heap(n: usize) -> (buffer: Self)
        requires
            n * size_of::<T>() <= isize::MAX,
        ensures
            buffer.wf(),
            buffer.contents() == Seq::<T>::empty(),
            buffer.region() is None,
            buffer.room() == heap_room::<T>(n),
    {
        let storage: Vec<T> = Vec::with_capacity(n);
        let capacity: usize = if core::mem::size_of::<T>() == 0 {
            usize::MAX
        } else {
            n
        };
        Self { handle: None, storage: ManuallyDrop::new(storage), capacity }
    }

    /// Capacity, in elements.
    pub fn capacity(&self) -> (capacity: usize)
        ensures
            capacity == self.room(),
    {
        self.capacity
    }

    /// Whether the backing is memory of the allocator (true) or not (false): a heap fallback, or no
    /// memory at all.
    pub fn is_lgalloc(&self) -> (backed: bool)
        ensures
            backed == pool_backed(self.region()),
    {
        match &self.handle {
            Some(handle) => !handle.is_dangling(),
            None => false,
        }
    }

    /// Release the backing, without dropping elements: the handle to give back to the allocator, if
    /// there is one. Memory of the heap is freed.
    pub fn release(self) -> (handle: Option<Handle>)
        ensures
            handle_region(handle) == self.region(),
    {
        if self.handle.is_none() {
            let mut storage: Vec<T> = ManuallyDrop::into_inner(self.storage);
            let mut left: usize = storage.len();
            while left > 0
                invariant
                    left == storage@.len(),
                decreases left,
            {
                let _forgotten: ManuallyDrop<Option<T>> = ManuallyDrop::new(storage.pop());
                left = left - 1;
            }
        }
        self.handle
    }

    /// Consume the buffer into its raw parts.
    pub fn into_raw_parts(self) -> (parts: (Vec<T>, usize, Option<Handle>))
        ensures
            parts.0 == self.backing(),
            parts.0@ == self.contents(),
            parts.1 == self.room(),
            handle_region(parts.2) == self.region(),
    {
        (ManuallyDrop::into_inner(self.storage), self.capacity, self.handle)
    }

    /// Reconstruct a `RawBuffer` from the parts of a prior call to [`RawBuffer::into_raw_parts`],
    /// with elements that are initialized since.
    pub fn from_raw_parts(storage: Vec<T>, capacity: usize, handle: Option<Handle>) -> (buffer: Self)
        requires
            storage@.len() <= capacity,
            handle matches Some(h) ==> fits::<T>(h@, capacity),
        ensures
            buffer.wf(),
            buffer.backing() == storage,
            buffer.contents() == storage@,
            buffer.room() == capacity,
            buffer.region() == handle_region(handle),
    {
        Self { handle, storage: ManuallyDrop::new(storage), capacity }
    }

    /// Convert into a [`Buffer`] with the first `len` elements, which are initialized. Elements
    /// behind them are forgotten, not dropped.
    pub fn assume_init_buffer(self, len: usize) -> (buffer: Buffer<T>)
        requires
            self.wf(),
            len <= self.contents().len(),
        ensures
            buffer.wf(),
            buffer@ == self.contents().subrange(0, len as int),
            buffer.room() == self.room(),
            buffer.region() == self.region(),
            len == self.contents().len() ==> buffer.backing() == self.backing(),
    {
        let mut storage: Vec<T> = ManuallyDrop::into_inner(self.storage);
        if len < storage.len() {
            let rest: Vec<T> = storage.split_off(len);
            let _forgotten: ManuallyDrop<Vec<T>> = ManuallyDrop::new(rest);
        }
        assert(storage@ =~= self.contents().subrange(0, len as int));
        Buffer { handle: self.handle, storage, capacity: self.capacity }
    }

    /// Prefetch the byte range covered by the given element range: the hint to issue, if any.
    ///
    /// # Errors
    ///
    /// Returns [`AdviseError::OutOfBounds`] beyond the capacity. Where the byte offsets overflow, it
    /// has saturating byte values.
    pub fn prefetch(&self, range: Range<usize>) -> (outcome: Result<Option<Hint>, AdviseError>)
        ensures
            outcome == element_outcome(size_of::<T>(), self.room(), self.region(), range, Advice::WillNeed),
    {
        advise_elements::<T>(&self.handle, self.capacity, range, Advice::WillNeed)
    }

    /// Mark a range as cold. See [`Handle::cold`].
    ///
    /// # Errors
    ///
    /// See [`RawBuffer::prefetch`].
    pub fn cold(&self, range: Range<usize>) -> (outcome: Result<Option<Hint>, AdviseError>)
        ensures
            outcome == element_outcome(size_of::<T>(), self.room(), self.region(), range, Advice::Cold),
    {
        advise_elements::<T>(&self.handle, self.capacity, range, Advice::Cold)
    }

    /// Request eviction of a range. See [`Handle::pageout`].
    ///
    /// # Errors
    ///
    /// See [`RawBuffer::prefetch`].
    pub fn pageout(&self, range: Range<usize>) -> (outcome: Result<Option<Hint>, AdviseError>)
        ensures
            outcome == element_outcome(size_of::<T>(), self.room(), self.region(), range, Advice::PageOut),
    {
        advise_elements::<T>(&self.handle, self.capacity, range, Advice::PageOut)
    }

    /// Bring a range back as transparent huge pages. See [`Handle::restore_thp`].
    ///
    /// # Errors
    ///
    /// See [`RawBuffer::prefetch`].
    pub fn restore_thp(&self, range: Range<usize>) -> (hints: Result<Vec<Hint>, AdviseError>)
        ensures
            restored(
                element_outcome(size_of::<T>(), self.room(), self.region(), range, Advice::WillNeed),
                hints,
            ),
    {
        restore_from(advise_elements::<T>(&self.handle, self.capacity, range, Advice::WillNeed))
    }
}

/// The region of a handle, if there is one.
pub open spec fn handle_region(handle: Option<Handle>) -> Option<Region> {
    match handle {
        Some(h) => Some(h@),
        None => None,
    }
}

/// The region has room for `capacity` elements of `T`, unless it is a dangling one, which is for
/// no elements or for elements without size.
pub open spec fn fits<T>(region: Region, capacity: usize) -> bool {
    if region.0 == DANGLING {
        capacity == 0 || size_of::<T>() == 0
    } else {
        capacity * size_of::<T>() <= region.1
    }
}

/// The region is memory of the allocator's: not on the heap, and not dangling.
pub open spec fn pool_backed(region: Option<Region>) -> bool {
    region matches Some(r) && r.0 != DANGLING
}

/// What the allocator gives for `n` elements of `T`, if it gives anything: a vector without elements,
/// with room for so many in its region. The region is a dangling one only where no memory is needed.
pub open spec fn allocation_given<T>(n: usize, allocated: Result<(Vec<T>, usize, Handle), AllocError>) -> bool {
    allocated matches Ok((storage, capacity, handle)) ==> {
        &&& storage@.len() == 0
        &&& capacity >= n
        &&& fits::<T>(handle@, capacity)
        &&& n > 0 && size_of::<T>() > 0 ==> handle@.0 != DANGLING
    }
}

/// What is seen of a buffer.
#[verifier::ext_equal]
pub struct BufferView<T> {
    /// The elements.
    pub contents: Seq<T>,
    /// The capacity, in elements.
    pub room: usize,
    /// The region that backs the buffer, unless it is on the heap.
    pub region: Option<Region>,
}

/// The calls that change a buffer.
pub enum BufferCall<T> {
    /// [`Buffer::push`].
    Push(T),
    /// [`Buffer::extend_from_slice`].
    Extend(Seq<T>),
    /// [`Buffer::clear`].
    Clear,
}

impl<T> BufferView<T> {
    /// The elements are within the capacity, and the capacity within the region.
    pub open spec fn wf(self) -> bool {
        &&& self.contents.len() <= self.room
        &&& self.region matches Some(region) ==> fits::<T>(region, self.room)
    }

    /// The call has room for what it appends.
    pub open spec fn allows(self, call: BufferCall<T>) -> bool {
        match call {
            BufferCall::Push(_) => self.contents.len() < self.room,
            BufferCall::Extend(s) => self.contents.len() + s.len() <= self.room,
            BufferCall::Clear => true,
        }
    }

    /// The buffer after a call.
    pub open spec fn after(self, call: BufferCall<T>) -> BufferView<T> {
        BufferView {
            contents: match call {
                BufferCall::Push(value) => self.contents.push(value),
                BufferCall::Extend(s) => self.contents + s,
                BufferCall::Clear => Seq::empty(),
            },
            ..self
        }
    }

    /// Each call has room for what it appends.
    pub open spec fn allows_all(self, calls: Seq<BufferCall<T>>) -> bool
        decreases calls.len(),
    {
        calls.len() > 0 ==> self.allows(calls[0]) && self.after(calls[0]).allows_all(calls.drop_first())
    }

    /// The buffer after some calls.
    pub open spec fn after_all(self, calls: Seq<BufferCall<T>>) -> BufferView<T>
        decreases calls.len(),
    {
        if calls.len() > 0 {
            self.after(calls[0]).after_all(calls.drop_first())
        } else {
            self
        }
    }
}

/// Fixed-capacity length-tracking buffer. Like `Vec<T>` but cannot grow past its initial capacity.
///
/// A buffer over memory of the allocator must not be dropped: its vector would free that memory to
/// the heap. Take it apart with [`Buffer::into_raw_parts`], and [`RawBuffer::release`] what is left.
pub struct Buffer<T> {
    handle: Option<Handle>,
    storage: Vec<T>,
    capacity: usize,
}

impl<T> View for Buffer<T> {
    type V = Seq<T>;

    /// The elements.
    closed spec fn view(&self) -> Seq<T> {
        self.storage@
    }
}

impl<T> Buffer<T> {
    /// The vector whose memory holds the elements.
    pub closed spec fn backing(self) -> Vec<T> {
        self.storage
    }

    /// The capacity, in elements.
    pub closed spec fn room(self) -> usize {
        self.capacity
    }

    /// The region that backs the buffer. See [`RawBuffer::region`].
    pub closed spec fn region(self) -> Option<Region> {
        match self.handle {
            Some(handle) => Some(handle@),
            None => None,
        }
    }

    /// What is seen of the buffer.
    pub open spec fn state(self) -> BufferView<T> {
        BufferView { contents: self@, room: self.room(), region: self.region() }
    }

    /// The elements are within the capacity, and the capacity within the region.
    pub open spec fn wf(self) -> bool {
        self.state().wf()
    }

    /// The elements and the backing of a raw buffer.
    fn from_raw(raw: RawBuffer<T>) -> (buffer: Self)
        requires
            raw.wf(),
        ensures
            buffer.wf(),
            buffer@ == raw.contents(),
            buffer.room() == raw.room(),
            buffer.region() == raw.region(),
            buffer.backing() == raw.backing(),
    {
        Self { handle: raw.handle, storage: ManuallyDrop::into_inner(raw.storage), capacity: raw.capacity }
    }

    /// Allocate a buffer with capacity for `n` elements of `T`. See [`RawBuffer::with_capacity`].
    pub fn with_capacity(n: usize, allocated: Result<(Vec<T>, usize, Handle), AllocError>) -> (buffer: Self)
        requires
            allocated is Err ==> n * size_of::<T>() <= isize::MAX,
            allocation_given(n, allocated),
        ensures
            buffer.wf(),
            buffer@ == Seq::<T>::empty(),
            buffer.room() >= n,
            n > 0 && size_of::<T>() > 0 ==> (pool_backed(buffer.region()) <==> allocated is Ok),
            match allocated {
                Ok((storage, capacity, handle)) => buffer.room() == capacity && buffer.region() == Some(handle@)
                    && buffer.backing() == storage,
                Err(_) => buffer.region() is None && buffer.room() == heap_room::<T>(n),
            },
    {
        Self::from_raw(RawBuffer::with_capacity(n, allocated))
    }

    /// Allocate a buffer from the allocator. See [`RawBuffer::try_lgalloc`].
    ///
    /// # Errors
    ///
    /// Returns the allocator's error.
    pub fn try_lgalloc(n: usize, allocated: Result<(Vec<T>, usize, Handle), AllocError>) -> (buffer: Result<
        Self,
        AllocError,
    >)
        requires
            allocation_given(n, allocated),
        ensures
            match allocated {
                Ok((storage, capacity, handle)) => buffer matches Ok(b) && b.wf() && b@ == Seq::<T>::empty()
                    && b.room() == capacity && b.room() >= n && b.region() == Some(handle@) && b.backing()
                    == storage,
                Err(e) => buffer == Err::<Self, AllocError>(e),
            },
    {
        match RawBuffer::try_lgalloc(n, allocated) {
            Ok(raw) => Ok(Self::from_raw(raw)),
            Err(e) => Err(e),
        }
    }

    /// Allocate a buffer from the system heap. See [`RawBuffer::heap`].
    pub fn heap(n: usize) -> (buffer: Self)
        requires
            n * size_of::<T>() <= isize::MAX,
        ensures
            buffer.wf(),
            buffer@ == Seq::<T>::empty(),
            buffer.region() is None,
            buffer.room() == heap_room::<T>(n),
    {
        Self::from_raw(RawBuffer::heap(n))
    }

    /// Length of the buffer (number of initialized elements).
    pub fn len(&self) -> (len: usize)
        ensures
            len == self@.len(),
    {
        self.storage.len()
    }

    /// Returns `true` if the buffer contains no elements.
    pub fn is_empty(&self) -> (empty: bool)
        ensures
            empty == (self@.len() == 0),
    {
        self.storage.len() == 0
    }

    /// Capacity, in elements.
    pub fn capacity(&self) -> (capacity: usize)
        ensures
            capacity == self.room(),
    {
        self.capacity
    }

    /// Whether the backing is memory of the allocator. See [`RawBuffer::is_lgalloc`].
    pub fn is_lgalloc(&self) -> (backed: bool)
        ensures
            backed == pool_backed(self.region()),
    {
        match &self.handle {
            Some(handle) => !handle.is_dangling(),
            None => false,
        }
    }

    /// Append a value to the end of the buffer, which is not at capacity.
    pub fn push(&mut self, value: T)
        requires
            old(self).wf(),
            old(self)@.len() < old(self).room(),
        ensures
            final(self).wf(),
            final(self)@ == old(self)@.push(value),
            final(self).state() == old(self).state().after(BufferCall::Push(value)),
            final(self).room() == old(self).room(),
            final(self).region() == old(self).region(),
    {
        self.storage.push(value);
    }

    /// Append the entire slice to the end of the buffer, which has room for it.
    pub fn extend_from_slice(&mut self, s: &[T]) where T: Copy
        requires
            old(self).wf(),
            old(self)@.len() + s@.len() <= old(self).room(),
        ensures
            final(self).wf(),
            final(self)@ == old(self)@ + s@,
            final(self).state() == old(self).state().after(BufferCall::Extend(s@)),
            final(self).room() == old(self).room(),
            final(self).region() == old(self).region(),
    {
        let mut i: usize = 0;
        assert(self@ =~= old(self)@ + s@.take(0));
        while i < s.len()
            invariant
                i <= s@.len(),
                self@ == old(self)@ + s@.take(i as int),
                old(self)@.len() + s@.len() <= old(self).room(),
                self.room() == old(self).room(),
                self.region() == old(self).region(),
            decreases s@.len() - i,
        {
            self.storage.push(s[i]);
            assert(s@.take(i + 1) =~= s@.take(i as int).push(s@[i as int]));
            assert(self@ =~= old(self)@ + s@.take(i + 1));
            i = i + 1;
        }
        assert(s@.take(i as int) =~= s@);
    }

    /// Drop all elements, setting `len` to 0 but preserving capacity. The elements' destructors run, of
    /// which no clause speaks.
    pub fn clear(&mut self)
        requires
            old(self).wf(),
        ensures
            final(self).wf(),
            final(self)@ == Seq::<T>::empty(),
            final(self).state() == old(self).state().after(BufferCall::Clear),
            final(self).room() == old(self).room(),
            final(self).region() == old(self).region(),
    {
        self.storage.clear();
    }

    /// Consume the buffer into its underlying [`RawBuffer`] and length.
    pub fn into_raw_parts(self) -> (parts: (RawBuffer<T>, usize))
        requires
            self.wf(),
        ensures
            parts.0.wf(),
            parts.0.contents() == self@,
            parts.0.room() == self.room(),
            parts.0.region() == self.region(),
            parts.0.backing() == self.backing(),
            parts.1 == self@.len(),
    {
        let len: usize = self.len();
        (RawBuffer { handle: self.handle, storage: ManuallyDrop::new(self.storage), capacity: self.capacity }, len)
    }

    /// See [`RawBuffer::prefetch`]. Bounds are against `len`, not `capacity`.
    ///
    /// # Errors
    ///
    /// Returns [`AdviseError::OutOfBounds`] beyond the elements in use.
    pub fn prefetch(&self, range: Range<usize>) -> (outcome: Result<Option<Hint>, AdviseError>)
        ensures
            outcome == prefix_outcome(
                size_of::<T>(),
                self@.len(),
                self.room(),
                self.region(),
                range,
                Advice::WillNeed,
            ),
    {
        self.advise_element_range(range, Advice::WillNeed)
    }

    /// See [`RawBuffer::cold`]. Bounds are against `len`, not `capacity`.
    ///
    /// # Errors
    ///
    /// See [`Buffer::prefetch`].
    pub fn cold(&self, range: Range<usize>) -> (outcome: Result<Option<Hint>, AdviseError>)
        ensures
            outcome == prefix_outcome(
                size_of::<T>(),
                self@.len(),
                self.room(),
                self.region(),
                range,
                Advice::Cold,
            ),
    {
        self.advise_element_range(range, Advice::Cold)
    }

    /// See [`RawBuffer::pageout`]. Bounds are against `len`, not `capacity`.
    ///
    /// # Errors
    ///
    /// See [`Buffer::prefetch`].
    pub fn pageout(&self, range: Range<usize>) -> (outcome: Result<Option<Hint>, AdviseError>)
        ensures
            outcome == prefix_outcome(
                size_of::<T>(),
                self@.len(),
                self.room(),
                self.region(),
                range,
                Advice::PageOut,
            ),
    {
        self.advise_element_range(range, Advice::PageOut)
    }

    /// See [`RawBuffer::restore_thp`]. Bounds are against `len`, not `capacity`.
    ///
    /// # Errors
    ///
    /// See [`Buffer::prefetch`].
    pub fn restore_thp(&self, range: Range<usize>) -> (hints: Result<Vec<Hint>, AdviseError>)
        ensures
            restored(
                prefix_outcome(
                    size_of::<T>(),
                    self@.len(),
                    self.room(),
                    self.region(),
                    range,
                    Advice::WillNeed,
                ),
                hints,
            ),
    {
        restore_from(self.advise_element_range(range, Advice::WillNeed))
    }

    /// An advice on a range of elements in use.
    fn advise_element_range(&self, range: Range<usize>, advice: Advice) -> (outcome: Result<
        Option<Hint>,
        AdviseError,
    >)
        ensures
            outcome == prefix_outcome(size_of::<T>(), self@.len(), self.room(), self.region(), range, advice),
    {
        // Bounds check against len; anything beyond is always out of bounds for Buffer.
        let len: usize = self.len();
        if range.end > len {
            let elem_size: usize = core::mem::size_of::<T>();
            return Err(
                AdviseError::OutOfBounds {
                    byte_offset: saturating_product(range.start, elem_size),
                    byte_len: saturating_product(range.end.saturating_sub(range.start), elem_size),
                    allocation_len: saturating_product(len, elem_size),
                },
            );
        }
        advise_elements::<T>(&self.handle, self.capacity, range, advice)
    }

    /// The elements as a slice.
    pub fn as_slice(&self) -> (slice: &[T])
        ensures
            slice@ == self@,
    {
        self.storage.as_slice()
    }

    /// The elements as a mutable slice.
    pub fn as_mut_slice(&mut self) -> (slice: &mut [T])
        requires
            old(self).wf(),
        ensures
            slice@ == old(self)@,
            final(self)@ == final(slice)@,
            final(self).room() == old(self).room(),
            final(self).region() == old(self).region(),
            final(slice)@.len() == slice@.len() ==> final(self).wf(),
    {
        self.storage.as_mut_slice()
    }
}

impl<T> core::ops::Deref for Buffer<T> {
    type Target = [T];

    fn deref(&self) -> (slice: &[T])
        ensures
            slice@ == self@,
    {
        self.as_slice()
    }
}

/// An advice on elements within a buffer's capacity is never refused, and stays within the memory
/// of those elements.
pub proof fn law_elements_in_range_are_accepted(
    size: nat,
    capacity: usize,
    region: Option<Region>,
    range: Range<usize>,
    advice: Advice,
)
    requires
        range.start <= range.end <= capacity,
        capacity * size <= usize::MAX,
        region matches Some(r) ==> r.0 == DANGLING || (capacity * size <= r.1 && r.0 + r.1 <= usize::MAX),
    ensures
        element_outcome(size, capacity, region, range, advice) is Ok,
        element_outcome(size, capacity, region, range, advice) matches Ok(Some(hint)) ==> {
            &&& region matches Some(r) && hint.addr == r.0 + range.start * size && hint.addr + hint.len == r.0
                + range.end * size
            &&& hint.advice == advice
        },
{
    assert(range.start * size <= range.end * size && range.end * size <= capacity * size && range.start * size
        >= 0) by (nonlinear_arith)
        requires
            0 <= range.start <= range.end <= capacity,
    ;
}

/// An advice on elements beyond those in use is refused.
pub proof fn law_elements_beyond_len_are_refused(
    size: nat,
    len: nat,
    capacity: usize,
    region: Option<Region>,
    range: Range<usize>,
    advice: Advice,
)
    requires
        range.end > len,
    ensures
        prefix_outcome(size, len, capacity, region, range, advice) is Err,
{
}

/// Whatever is called on a buffer, it never grows: the capacity and the region stay what they were, and
/// there are no more elements than the capacity.
pub proof fn law_buffer_never_grows<T>(buffer: BufferView<T>, calls: Seq<BufferCall<T>>)
    requires
        buffer.wf(),
        buffer.allows_all(calls),
    ensures
        buffer.after_all(calls).wf(),
        buffer.after_all(calls).room == buffer.room,
        buffer.after_all(calls).region == buffer.region,
        pool_backed(buffer.after_all(calls).region) == pool_backed(buffer.region),
        buffer.after_all(calls).contents.len() <= buffer.room,
    decreases calls.len(),
{
    if calls.len() > 0 {
        law_buffer_never_grows(buffer.after(calls[0]), calls.drop_first());
    }
}

/// Clearing leaves no element, and clearing again changes nothing.
pub proof fn law_clear_is_idempotent<T>(buffer: BufferView<T>)
    ensures
        buffer.after(BufferCall::Clear).contents.len() == 0,
        buffer.after(BufferCall::Clear).after(BufferCall::Clear) == buffer.after(BufferCall::Clear),
{
}

/// What is appended is read back, behind what was there.
pub proof fn law_appended_is_read_back<T>(buffer: BufferView<T>, value: T, s: Seq<T>, i: int)
    ensures
        buffer.after(BufferCall::Push(value)).contents.last() == value,
        buffer.after(BufferCall::Push(value)).contents.drop_last() == buffer.contents,
        0 <= i < s.len() ==> buffer.after(BufferCall::Extend(s)).contents[buffer.contents.len() + i] == s[i],
        buffer.after(BufferCall::Extend(s)).contents.take(buffer.contents.len() as int) == buffer.contents,
{
    assert(buffer.contents.push(value).drop_last() =~= buffer.contents);
    assert((buffer.contents + s).take(buffer.contents.len() as int) =~= buffer.contents);
}

/// A product is held as it is where a machine word can, and else as the largest word.
pub proof fn law_products_saturate(product: nat)
    ensures
        saturated(product) <= product,
        saturated(product) < product ==> saturated(product) == usize::MAX,
        product <= usize::MAX ==> saturated(product) == product,
{
}

/// An advice on some elements of a buffer over memory of the allocator is issued for exactly the bytes of
/// those elements, whatever the advice is.
pub proof fn law_element_advice_is_issued(
    size: nat,
    capacity: usize,
    region: Region,
    range: Range<usize>,
    advice: Advice,
)
    requires
        size > 0,
        region.0 != 1,
        region.0 + region.1 <= usize::MAX,
        capacity * size <= region.1,
        range.start < range.end <= capacity,
    ensures
        element_outcome(size, capacity, Some(region), range, advice) matches Ok(Some(hint)) && hint.addr == region.0
            + range.start * size && hint.len == (range.end - range.start) * size && hint.advice == advice,
{
    assert(0 <= range.start * size < range.end * size && range.end * size <= capacity * size && (range.end
        - range.start) * size == range.end * size - range.start * size) by (nonlinear_arith)
        requires
            0 <= range.start < range.end <= capacity,
            size > 0,
    ;
}

/// Nothing is issued for no elements within the capacity, for elements without size, and on the heap.
pub proof fn law_no_advice_without_memory(
    size: nat,
    capacity: usize,
    region: Option<Region>,
    range: Range<usize>,
    advice: Advice,
)
    requires
        capacity * size <= usize::MAX,
        range.start <= range.end <= capacity,
        region matches Some(r) ==> r.0 == 1 || range.start == range.end || size == 0,
    ensures
        element_outcome(size, capacity, region, range, advice) matches Ok(hint) && hint is None,
{
    assert(0 <= range.start * size <= range.end * size && range.end * size <= capacity * size) by (nonlinear_arith)
        requires
            0 <= range.start <= range.end <= capacity,
    ;
    if range.start == range.end || size == 0 {
        assert(range.end * size - range.start * size == 0) by (nonlinear_arith)
            requires
                range.start == range.end || size == 0,
        ;
    }
}

/// An advice on an empty range, and on any range of a buffer without memory, is a no-op, as long as a machine
/// word can hold its bytes. On the heap an empty range beyond the capacity is refused.
pub proof fn law_advice_on_nothing(
    size: nat,
    capacity: usize,
    region: Option<Region>,
    range: Range<usize>,
    advice: Advice,
)
    requires
        range.start <= range.end,
        range.end * size <= usize::MAX,
        range.start == range.end || (region matches Some(r) && r.0 == 1),
    ensures
        region is Some ==> (element_outcome(size, capacity, region, range, advice) matches Ok(hint) && hint is None),
        region is None && range.end * size > capacity * size ==> element_outcome(
            size,
            capacity,
            region,
            range,
            advice,
        ) is Err,
{
    assert(0 <= range.start * size <= range.end * size) by (nonlinear_arith)
        requires
            0 <= range.start <= range.end,
    ;
    if range.start == range.end {
        assert(range.end * size - range.start * size == 0) by (nonlinear_arith)
            requires
                range.start == range.end,
        ;
    }
}

/// An advice on a range that ends before it starts is refused, on the heap and elsewhere. So is one beyond
/// the memory. The error tells the bytes that were asked for, as far as a machine word can hold them.
pub proof fn law_advice_out_of_range_is_refused(
    size: nat,
    capacity: usize,
    region: Option<Region>,
    range: Range<usize>,
    advice: Advice,
)
    requires
        size > 0,
        region matches Some(r) ==> r.0 != 1 && r.0 + r.1 <= usize::MAX,
        range.end < range.start || (range.start < range.end && range.end * size > match region {
            Some(r) => r.1 as int,
            None => if capacity * size <= usize::MAX {
                capacity * size
            } else {
                usize::MAX as int
            },
        }),
    ensures
        element_outcome(size, capacity, region, range, advice) matches Err(
            AdviseError::OutOfBounds { byte_offset, byte_len, allocation_len },
        ) && {
            &&& byte_offset == if range.start * size <= usize::MAX {
                range.start * size
            } else {
                usize::MAX as int
            }
            &&& range.end < range.start ==> byte_len == 0
            &&& range.end >= range.start && range.start * size > usize::MAX ==> byte_len == 0
            &&& range.end >= range.start && range.start * size <= usize::MAX ==> byte_len == if (range.end
                - range.start) * size <= usize::MAX {
                (range.end - range.start) * size
            } else {
                usize::MAX - range.start * size
            }
            &&& (region is None || range.end < range.start || range.start * size > usize::MAX || (range.end
                - range.start) * size > usize::MAX) && capacity * size <= usize::MAX ==> allocation_len == capacity
                * size
            &&& range.end > range.start && range.start * size <= usize::MAX && (range.end - range.start) * size
                <= usize::MAX ==> (region matches Some(r) ==> allocation_len == r.1)
        },
{
    let (start, end, bytes) = (range.start as int, range.end as int, size as int);
    assert(end * bytes - start * bytes == (end - start) * bytes) by (nonlinear_arith);
    assert(0 <= start * bytes && 0 <= end * bytes) by (nonlinear_arith)
        requires
            0 <= start,
            0 <= end,
            bytes > 0,
    ;
    assert(start < end ==> start * bytes < end * bytes) by (nonlinear_arith)
        requires
            bytes > 0,
    ;
    assert(end < start ==> end * bytes < start * bytes) by (nonlinear_arith)
        requires
            bytes > 0,
    ;
}

/// An advice on elements in use is one on the capacity; beyond them it is refused, and the error tells the
/// bytes that were asked for and those in use, as far as a machine word can hold them.
pub proof fn law_advice_is_on_elements_in_use(
    size: nat,
    len: nat,
    capacity: usize,
    region: Option<Region>,
    range: Range<usize>,
    advice: Advice,
)
    ensures
        range.end <= len ==> prefix_outcome(size, len, capacity, region, range, advice) == element_outcome(
            size,
            capacity,
            region,
            range,
            advice,
        ),
        range.end > len ==> (prefix_outcome(size, len, capacity, region, range, advice) matches Err(
            AdviseError::OutOfBounds { byte_offset, byte_len, allocation_len },
        ) && {
            &&& range.start * size <= usize::MAX ==> byte_offset == range.start * size
            &&& range.start * size > usize::MAX ==> byte_offset == usize::MAX
            &&& range.start <= range.end && (range.end - range.start) * size <= usize::MAX ==> byte_len == (range.end
                - range.start) * size
            &&& range.start > range.end ==> byte_len == 0
            &&& len * size <= usize::MAX ==> allocation_len == len * size
        }),
{
    assert(0 * size == 0);
}

/// An advice on elements brings back what the hints of a restoration say: three hints over the bytes of the
/// elements, none where nothing is to be issued, and the error where it is refused.
pub proof fn law_restored_is_three_hints(
    outcome: Result<Option<Hint>, AdviseError>,
    hints: Result<Vec<Hint>, AdviseError>,
)
    requires
        restored(outcome, hints),
    ensures
        match outcome {
            Ok(Some(hint)) => hints matches Ok(list) && list@.len() == 3 && (forall|i: int|
                0 <= i < 3 ==> (#[trigger] list@[i]).addr == hint.addr && list@[i].len == hint.len)
                && list@[0].advice == Advice::WillNeed && list@[1].advice == Advice::PopulateRead
                && list@[2].advice == Advice::Collapse,
            Ok(None) => hints matches Ok(list) && list@.len() == 0,
            Err(e) => hints matches Err(f) && f == e,
        },
{
}

/// A buffer for `n` elements on the heap has room for them and for no more, unless they have no size: then
/// for as many as can be counted.
pub proof fn law_heap_room<T>(n: usize)
    ensures
        heap_room::<T>(n) >= n,
        size_of::<T>() > 0 ==> heap_room::<T>(n) == n,
        size_of::<T>() == 0 ==> heap_room::<T>(n) == usize::MAX,
{
}

/// A region has room for some elements exactly where their bytes are no more than its own; a dangling one
/// for no bytes alone.
pub proof fn law_fits_is_by_bytes<T>(region: Region, capacity: usize)
    ensures
        region.0 != 1 ==> (fits::<T>(region, capacity) <==> capacity * size_of::<T>() <= region.1),
        region.0 == 1 ==> (fits::<T>(region, capacity) <==> capacity * size_of::<T>() == 0),
        pool_backed(Some(region)) <==> region.0 != 1,
        !pool_backed(None),
{
    assert(capacity * size_of::<T>() == 0 <==> capacity == 0 || size_of::<T>() == 0) by (nonlinear_arith);
}

} // verus!
