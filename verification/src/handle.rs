//! Handles to regions of memory.
use crate::advise::{advise_outcome, restore_from, restore_hints, Advice, Hint, Os, DANGLING};
use crate::error::AdviseError;
use core::ops::Range;
use vstd::prelude::*;

verus! {

/// Number of bytes in a byte range; none if it ends before it starts.
pub open spec fn range_len(range: Range<usize>) -> nat {
    if range.end >= range.start {
        (range.end - range.start) as nat
    } else {
        0
    }
}

/// The hint by which memory that is not in use is lazily recycled.
pub open spec fn clear_hint(region: (usize, usize), os: Os) -> Hint {
    Hint {
        addr: region.0,
        len: region.1,
        advice: if os is Linux {
            Advice::Free
        } else {
            Advice::DontNeed
        },
    }
}

/// The hint by which memory that is not in use is recycled at once.
pub open spec fn fast_clear_hint(region: (usize, usize)) -> Hint {
    Hint { addr: region.0, len: region.1, advice: Advice::DontNeed }
}

/// Handle to a region of memory obtained from the allocator.
pub struct Handle {
    /// Address of the first byte.
    addr: usize,
    /// Length of the region in bytes.
    len: usize,
}

impl View for Handle {
    type V = (usize, usize);

    /// The address and the length of the region.
    closed spec fn view(&self) -> (usize, usize) {
        (self.addr, self.len)
    }
}

impl Handle {
    /// A region lies within the address space.
    #[verifier::type_invariant]
    spec fn in_address_space(self) -> bool {
        self.addr + self.len <= usize::MAX
    }

    /// Construct a new handle from a region of memory.
    pub(crate) fn new(addr: usize, len: usize) -> (handle: Self)
        requires
            addr + len <= usize::MAX,
        ensures
            handle@ == (addr, len),
    {
        Self { addr, len }
    }

    /// Construct a dangling handle, which is only suitable for zero-sized types.
    pub fn dangling() -> (handle: Self)
        ensures
            handle@ == (DANGLING, 0usize),
    {
        Self { addr: DANGLING, len: 0 }
    }

    /// Whether the handle owns no memory.
    pub fn is_dangling(&self) -> (dangling: bool)
        ensures
            dangling == (self@.0 == DANGLING),
    {
        self.addr == DANGLING
    }

    /// Length of the memory area in bytes.
    pub fn len(&self) -> (len: usize)
        ensures
            len == self@.1,
    {
        self.len
    }

    /// Address of the memory area.
    pub fn addr(&self) -> (addr: usize)
        ensures
            addr == self@.0,
            addr + self@.1 <= usize::MAX,
    {
        proof {
            use_type_invariant(self);
        }
        self.addr
    }

    /// Indicate that the memory is not in use and that the system can lazily recycle it: the hint
    /// to issue. Lazy reclaim is for Linux; other systems recycle at once.
    pub fn clear(&self, os: Os) -> (hint: Hint)
        ensures
            hint == (Hint {
                addr: self@.0,
                len: self@.1,
                advice: if os is Linux {
                    Advice::Free
                } else {
                    Advice::DontNeed
                },
            }),
            hint == clear_hint(self@, os),
    {
        Hint { addr: self.addr, len: self.len, advice: Advice::clear_strategy(os) }
    }

    /// Indicate that the memory is not in use and that the system should immediately recycle it:
    /// the hint to issue.
    pub fn fast_clear(&self) -> (hint: Hint)
        ensures
            hint == (Hint { addr: self@.0, len: self@.1, advice: Advice::DontNeed }),
            hint == fast_clear_hint(self@),
    {
        Hint { addr: self.addr, len: self.len, advice: Advice::DontNeed }
    }

    /// An advice on `byte_len` bytes of this allocation from `byte_offset` on.
    pub(crate) fn advise_bytes(&self, byte_offset: usize, byte_len: usize, advice: Advice) -> (outcome: Result<
        Option<Hint>,
        AdviseError,
    >)
        ensures
            outcome == advise_outcome(self@, byte_offset, byte_len, advice),
    {
        proof {
            use_type_invariant(self);
        }
        if byte_len == 0 || self.is_dangling() {
            return Ok(None);
        }
        match byte_offset.checked_add(byte_len) {
            Some(end) if end <= self.len => Ok(
                Some(Hint { addr: self.addr + byte_offset, len: byte_len, advice }),
            ),
            _ => Err(AdviseError::OutOfBounds { byte_offset, byte_len, allocation_len: self.len }),
        }
    }

    /// An advice over a byte range of this allocation.
    ///
    /// Performs the bounds check and the zero-length / dangling short-circuit.
    pub(crate) fn advise_range(&self, byte_range: Range<usize>, advice: Advice) -> (outcome: Result<
        Option<Hint>,
        AdviseError,
    >)
        ensures
            outcome == advise_outcome(self@, byte_range.start, range_len(byte_range) as usize, advice),
    {
        let byte_len: usize = byte_range.end.saturating_sub(byte_range.start);
        self.advise_bytes(byte_range.start, byte_len, advice)
    }

    /// Hint that a byte range will be needed soon: the hint to issue, if any.
    ///
    /// The byte range does not need to be page-aligned. This is a performance hint and never
    /// affects correctness.
    ///
    /// # Errors
    ///
    /// Returns [`AdviseError::OutOfBounds`] if a byte range that is not empty exceeds the
    /// allocation.
    pub fn prefetch(&self, byte_range: Range<usize>) -> (outcome: Result<Option<Hint>, AdviseError>)
        ensures
            outcome == advise_outcome(
                self@,
                byte_range.start,
                range_len(byte_range) as usize,
                Advice::WillNeed,
            ),
    {
        self.advise_range(byte_range, Advice::WillNeed)
    }

    /// Hint that a byte range is unlikely to be accessed soon: the hint to issue, if any.
    ///
    /// # Errors
    ///
    /// See [`Handle::prefetch`].
    pub fn cold(&self, byte_range: Range<usize>) -> (outcome: Result<Option<Hint>, AdviseError>)
        ensures
            outcome == advise_outcome(self@, byte_range.start, range_len(byte_range) as usize, Advice::Cold),
    {
        self.advise_range(byte_range, Advice::Cold)
    }

    /// Request immediate eviction of a byte range: the hint to issue, if any.
    ///
    /// Eviction may split transparent huge pages; see [`Handle::restore_thp`].
    ///
    /// # Errors
    ///
    /// See [`Handle::prefetch`].
    pub fn pageout(&self, byte_range: Range<usize>) -> (outcome: Result<Option<Hint>, AdviseError>)
        ensures
            outcome == advise_outcome(
                self@,
                byte_range.start,
                range_len(byte_range) as usize,
                Advice::PageOut,
            ),
    {
        self.advise_range(byte_range, Advice::PageOut)
    }

    /// Bring a byte range back from eviction as transparent huge pages: the hints to issue, in
    /// order. It succeeds whether or not the kernel can do so.
    ///
    /// # Errors
    ///
    /// See [`Handle::prefetch`].
    pub fn restore_thp(&self, byte_range: Range<usize>) -> (hints: Result<Vec<Hint>, AdviseError>)
        ensures
            match advise_outcome(
                self@,
                byte_range.start,
                range_len(byte_range) as usize,
                Advice::WillNeed,
            ) {
                Ok(hint) => hints matches Ok(list) && list@ == restore_hints(hint),
                Err(e) => hints == Err::<Vec<Hint>, AdviseError>(e),
            },
    {
        restore_from(self.advise_range(byte_range, Advice::WillNeed))
    }

    /// Consume the handle and return its raw components. The caller becomes responsible for the
    /// allocation and must reconstruct via [`Handle::from_raw_parts`] to release it.
    pub fn into_raw_parts(self) -> (parts: (usize, usize))
        ensures
            parts == self@,
            parts.0 + parts.1 <= usize::MAX,
    {
        proof {
            use_type_invariant(&self);
        }
        (self.addr, self.len)
    }

    /// Reconstruct a `Handle` from an address and length previously returned by
    /// [`Handle::into_raw_parts`], at most once for each such pair.
    pub fn from_raw_parts(addr: usize, len: usize) -> (handle: Self)
        requires
            addr + len <= usize::MAX,
        ensures
            handle@ == (addr, len),
    {
        Self { addr, len }
    }
}

/// An advice on a byte range of a region that owns memory is issued for exactly those bytes, refused where
/// the range ends beyond the region, and a no-op where the range is empty or ends before it starts.
pub proof fn law_range_advice_is_issued(region: (usize, usize), range: Range<usize>, advice: Advice)
    requires
        region.0 + region.1 <= usize::MAX,
    ensures
        ({
            let outcome = advise_outcome(region, range.start, range_len(range) as usize, advice);
            &&& region.0 != 1 && range.start < range.end <= region.1 ==> (outcome matches Ok(Some(hint))
                && hint.addr == region.0 + range.start && hint.addr + hint.len == region.0 + range.end
                && hint.advice == advice)
            &&& region.0 != 1 && range.start < range.end && range.end > region.1 ==> (outcome matches Err(
                AdviseError::OutOfBounds { byte_offset, byte_len, allocation_len },
            ) && byte_offset == range.start && byte_len == range.end - range.start && allocation_len == region.1)
            &&& region.0 == 1 || range.start >= range.end ==> (outcome matches Ok(hint) && hint is None)
        }),
{
}

/// Memory that is not in use is given back as a whole: lazily on Linux and at once elsewhere, or at once
/// everywhere where that is asked for.
pub proof fn law_memory_is_cleared_as_a_whole(region: (usize, usize), os: Os)
    ensures
        clear_hint(region, os).addr == region.0,
        clear_hint(region, os).len == region.1,
        os == Os::Linux ==> clear_hint(region, os).advice == Advice::Free,
        os == Os::Other ==> clear_hint(region, os).advice == Advice::DontNeed,
        fast_clear_hint(region).addr == region.0,
        fast_clear_hint(region).len == region.1,
        fast_clear_hint(region).advice == Advice::DontNeed,
{
}

} // verus!
