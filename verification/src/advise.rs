//! Residency advisories: what is to be asked of the kernel, and where.
use crate::error::AdviseError;
use vstd::prelude::*;

verus! {

/// The operating systems between which the advisories differ.
#[derive(Clone, Copy, Debug, PartialEq, Eq, Structural)]
pub enum Os {
    /// Linux.
    Linux,
    /// Any other system.
    Other,
}

/// An advice about a range of memory.
#[derive(Clone, Copy, Debug, PartialEq, Eq, Structural)]
pub enum Advice {
    /// `MADV_WILLNEED`: page in eagerly.
    WillNeed,
    /// `MADV_COLD`: preferred eviction.
    Cold,
    /// `MADV_PAGEOUT`: evict now.
    PageOut,
    /// `MADV_POPULATE_READ`: fault the range in for reading.
    PopulateRead,
    /// `MADV_COLLAPSE`: rebuild transparent huge pages.
    Collapse,
    /// `MADV_FREE`: the contents may be reclaimed lazily.
    Free,
    /// `MADV_DONTNEED`: reclaim the contents now.
    DontNeed,
}

/// The advices that every system understands. The others are for Linux alone.
pub open spec fn portable(advice: Advice) -> bool {
    advice is WillNeed || advice is DontNeed
}

impl Advice {
    /// Whether the advice is handed to the kernel. Where it is not, asking for it is a silent
    /// no-op.
    pub fn issued_on(self, os: Os) -> (issued: bool)
        ensures
            issued == (os is Linux || portable(self)),
    {
        match os {
            Os::Linux => true,
            Os::Other => match self {
                Advice::WillNeed | Advice::DontNeed => true,
                Advice::Cold | Advice::PageOut | Advice::PopulateRead | Advice::Collapse | Advice::Free => false,
            },
        }
    }

    /// How free memory is given back in the background: lazily on Linux, at once elsewhere.
    pub fn clear_strategy(os: Os) -> (advice: Advice)
        ensures
            advice == (if os is Linux {
                Advice::Free
            } else {
                Advice::DontNeed
            }),
    {
        match os {
            Os::Linux => Advice::Free,
            Os::Other => Advice::DontNeed,
        }
    }
}

/// One advice to hand to the kernel. The kernel's answer to a residency hint is of no account.
#[derive(Clone, Copy, Debug, PartialEq, Eq, Structural)]
pub struct Hint {
    /// Address of the first byte.
    pub addr: usize,
    /// Number of bytes.
    pub len: usize,
    /// The advice.
    pub advice: Advice,
}

/// Address of a handle that owns no memory: that of a dangling byte pointer.
pub const DANGLING: usize = 1;

/// What becomes of an advice on `len` bytes from `offset` on, within a region of memory given by
/// its address and length: nothing to do for no bytes or no memory, refused beyond the region,
/// else one hint.
pub open spec fn advise_outcome(region: (usize, usize), offset: usize, len: usize, advice: Advice) -> Result<
    Option<Hint>,
    AdviseError,
> {
    if len == 0 || region.0 == DANGLING {
        Ok(None)
    } else if offset + len > region.1 {
        Err(AdviseError::OutOfBounds { byte_offset: offset, byte_len: len, allocation_len: region.1 })
    } else {
        Ok(Some(Hint { addr: (region.0 + offset) as usize, len, advice }))
    }
}

/// The hints that bring paged-out huge pages back: page in, populate, then collapse.
pub open spec fn restore_hints(hint: Option<Hint>) -> Seq<Hint> {
    match hint {
        None => Seq::empty(),
        Some(h) => seq![
            Hint { advice: Advice::WillNeed, ..h },
            Hint { advice: Advice::PopulateRead, ..h },
            Hint { advice: Advice::Collapse, ..h },
        ],
    }
}

/// Expands the outcome of a paging-in advice to the hints of a huge page restoration.
pub(crate) fn restore_from(outcome: Result<Option<Hint>, AdviseError>) -> (hints: Result<Vec<Hint>, AdviseError>)
    ensures
        match outcome {
            Ok(hint) => hints matches Ok(list) && list@ == restore_hints(hint),
            Err(e) => hints == Err::<Vec<Hint>, AdviseError>(e),
        },
{
    match outcome {
        Err(e) => Err(e),
        Ok(None) => Ok(Vec::new()),
        Ok(Some(hint)) => {
            let mut list: Vec<Hint> = Vec::new();
            list.push(Hint { addr: hint.addr, len: hint.len, advice: Advice::WillNeed });
            list.push(Hint { addr: hint.addr, len: hint.len, advice: Advice::PopulateRead });
            list.push(Hint { addr: hint.addr, len: hint.len, advice: Advice::Collapse });
            Ok(list)
        },
    }
}

/// Whether to report that huge pages are not to be had: once, when the kernel first refuses the
/// advice for a fresh mapping.
pub fn warn_about_huge_pages(ret: i32, warned: bool) -> (warn: bool)
    ensures
        warn == (ret == -1 && !warned),
{
    ret == -1 && !warned
}

/// A hint never reaches beyond the region that it is about, and covers what was asked for.
pub proof fn law_hint_stays_inside(region: (usize, usize), offset: usize, len: usize, advice: Advice)
    requires
        region.0 + region.1 <= usize::MAX,
    ensures
        advise_outcome(region, offset, len, advice) matches Ok(Some(hint)) ==> {
            &&& hint.addr == region.0 + offset
            &&& hint.len == len
            &&& hint.len > 0
            &&& hint.addr + hint.len <= region.0 + region.1
            &&& hint.advice == advice
        },
{
}

/// An advice on a range within the region is never refused, and one that is refused asks for
/// bytes beyond it.
pub proof fn law_advice_in_range_is_accepted(region: (usize, usize), offset: usize, len: usize, advice: Advice)
    ensures
        offset + len <= region.1 ==> advise_outcome(region, offset, len, advice) is Ok,
        len == 0 ==> advise_outcome(region, offset, len, advice) == Ok::<Option<Hint>, AdviseError>(None),
        region.0 != DANGLING && len > 0 && offset + len > region.1 ==> advise_outcome(
            region,
            offset,
            len,
            advice,
        ) is Err,
{
}

/// An advice on some bytes of a region that owns memory is issued, with the bytes that were asked for:
/// wherever in the region they are and whatever the advice is. Nothing is issued for no bytes, and where
/// there is no memory. All else is refused, and the error tells what was asked for.
pub proof fn law_advice_is_issued(region: (usize, usize), offset: usize, len: usize, advice: Advice)
    requires
        region.0 + region.1 <= usize::MAX,
    ensures
        region.0 != 1 && len > 0 && offset + len <= region.1 ==> (advise_outcome(
            region,
            offset,
            len,
            advice,
        ) matches Ok(Some(hint)) && hint.addr == region.0 + offset && hint.len == len && hint.advice == advice),
        region.0 == 1 || len == 0 ==> (advise_outcome(region, offset, len, advice) matches Ok(hint)
            && hint is None),
        region.0 != 1 && len > 0 && offset + len > region.1 ==> (advise_outcome(
            region,
            offset,
            len,
            advice,
        ) matches Err(AdviseError::OutOfBounds { byte_offset, byte_len, allocation_len }) && byte_offset == offset
            && byte_len == len && allocation_len == region.1),
{
}

/// Advices on two adjoining ranges ask for the bytes of one advice on both, and are accepted if that is.
pub proof fn law_advice_can_be_split(region: (usize, usize), offset: usize, first: usize, second: usize, advice: Advice)
    requires
        region.0 != 1,
        region.0 + region.1 <= usize::MAX,
        first > 0,
        second > 0,
        offset + first + second <= usize::MAX,
    ensures
        ({
            let whole = advise_outcome(region, offset, (first + second) as usize, advice);
            let left = advise_outcome(region, offset, first, advice);
            let right = advise_outcome(region, (offset + first) as usize, second, advice);
            &&& whole is Ok <==> left is Ok && right is Ok
            &&& whole is Ok ==> (whole matches Ok(Some(all)) && left matches Ok(Some(a)) && right matches Ok(Some(b))
                && all.addr == a.addr && a.addr + a.len == b.addr && a.len + b.len == all.len)
        }),
{
}

/// Huge pages are brought back by paging in, populating and collapsing, in this order, each over the bytes
/// of the hint. Without a hint there is nothing to do.
pub proof fn law_restoration_pages_in_populates_and_collapses(hint: Hint)
    ensures
        restore_hints(None).len() == 0,
        restore_hints(Some(hint)).len() == 3,
        restore_hints(Some(hint))[0].advice == Advice::WillNeed,
        restore_hints(Some(hint))[1].advice == Advice::PopulateRead,
        restore_hints(Some(hint))[2].advice == Advice::Collapse,
        forall|i: int|
            0 <= i < 3 ==> (#[trigger] restore_hints(Some(hint))[i]).addr == hint.addr && restore_hints(
                Some(hint),
            )[i].len == hint.len,
{
}

/// Paging in and reclaiming at once are for every system; all other advices are for Linux alone.
pub proof fn law_portable_advices(advice: Advice)
    ensures
        portable(advice) <==> match advice {
            Advice::WillNeed | Advice::DontNeed => true,
            Advice::Cold | Advice::PageOut | Advice::PopulateRead | Advice::Collapse | Advice::Free => false,
        },
{
}

} // verus!
