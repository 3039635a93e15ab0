//! Power-of-two size classes from 2 MiB to 128 GiB.
use crate::error::AllocError;
use core::ops::Range;
use vstd::arithmetic::power2::{
    lemma2_to64, lemma2_to64_rest, lemma_pow2_pos, lemma_pow2_strictly_increases, lemma_pow2_unfold, pow2,
};
use vstd::bits::lemma_usize_shl_is_mul;
use vstd::prelude::*;

verus! {

/// Range of valid size classes: regions of 2 MiB up to and including 128 GiB.
pub const VALID_SIZE_CLASS: Range<usize> = 21..38;

/// The number of valid size classes.
pub const SIZE_CLASS_COUNT: usize = 17;

/// `class` is the least exponent whose power of two reaches `bytes`.
pub open spec fn is_class_of(class: nat, bytes: nat) -> bool {
    &&& bytes <= pow2(class)
    &&& class > 0 ==> pow2((class - 1) as nat) < bytes
}

/// The least exponent whose power of two reaches `bytes`.
pub open spec fn class_for(bytes: nat) -> nat {
    choose|class: nat| is_class_of(class, bytes)
}

/// `class` is one of the classes that the allocator serves.
pub open spec fn in_valid_range(class: int) -> bool {
    VALID_SIZE_CLASS.start <= class < VALID_SIZE_CLASS.end
}

/// Abstraction over size classes.
#[derive(Clone, Copy, Debug)]
pub struct SizeClass(usize);

impl SizeClass {
    /// The exponent of the class.
    pub closed spec fn exponent(self) -> nat {
        self.0 as nat
    }

    /// The class is one that the allocator serves.
    pub open spec fn valid(self) -> bool {
        in_valid_range(self.exponent() as int)
    }

    /// The size of a region of this class.
    pub open spec fn bytes(self) -> nat {
        pow2(self.exponent())
    }

    /// The class with the given exponent, which is not checked.
    pub fn new_unchecked(value: usize) -> (class: Self)
        ensures
            class.exponent() == value,
    {
        SizeClass(value)
    }

    /// Position of the class among the valid ones.
    pub fn index(self) -> (index: usize)
        requires
            self.exponent() >= VALID_SIZE_CLASS.start,
        ensures
            index == self.exponent() - VALID_SIZE_CLASS.start,
    {
        self.0 - VALID_SIZE_CLASS.start
    }

    /// The size in bytes of this size class.
    pub fn byte_size(self) -> (bytes: usize)
        requires
            self.exponent() < usize::BITS,
        ensures
            bytes == self.bytes(),
            bytes > 0,
    {
        proof {
            lemma_pow2_pos(self.0 as nat);
            lemma2_to64();
            lemma2_to64_rest();
            if self.0 < 63 {
                lemma_pow2_strictly_increases(self.0 as nat, 63);
            }
            lemma_usize_shl_is_mul(1, self.0);
        }
        1 << self.0
    }

    /// The class at a position among the valid ones.
    pub fn from_index(index: usize) -> (class: Self)
        requires
            index + VALID_SIZE_CLASS.start <= usize::MAX,
        ensures
            class.exponent() == index + VALID_SIZE_CLASS.start,
    {
        SizeClass(index + VALID_SIZE_CLASS.start)
    }

    /// The class of regions of the given exponent, if the allocator serves it.
    pub fn try_from(value: usize) -> (class: Result<Self, AllocError>)
        ensures
            class is Ok <==> in_valid_range(value as int),
            class matches Ok(c) ==> c.exponent() == value,
            class matches Err(e) ==> e == AllocError::InvalidSizeClass(value),
    {
        if VALID_SIZE_CLASS.start <= value && value < VALID_SIZE_CLASS.end {
            Ok(SizeClass(value))
        } else {
            Err(AllocError::InvalidSizeClass(value))
        }
    }

    /// Obtain a size class from a size in bytes.
    pub fn from_byte_size(byte_size: usize) -> (class: Result<Self, AllocError>)
        ensures
            class matches Ok(c) ==> c.valid() && is_class_of(c.exponent(), byte_size as nat),
            class matches Err(e) ==> (e matches AllocError::InvalidSizeClass(c) && !in_valid_range(c as int)
                && is_class_of(c as nat, byte_size as nat)),
    {
        let class: usize = Self::from_byte_size_unchecked(byte_size).0;
        Self::try_from(class)
    }

    /// The class of the least power of two that reaches `byte_size`, valid or not.
    pub fn from_byte_size_unchecked(byte_size: usize) -> (class: Self)
        ensures
            is_class_of(class.exponent(), byte_size as nat),
            class.exponent() <= usize::BITS,
    {
        let mut class: usize = 0;
        proof {
            lemma2_to64();
        }
        while class < usize::BITS as usize && (1usize << class) < byte_size
            invariant
                class <= usize::BITS,
                class > 0 ==> pow2((class - 1) as nat) < byte_size,
            decreases usize::BITS - class,
        {
            proof {
                lemma_shift_is_pow2(class);
            }
            class = class + 1;
        }
        proof {
            lemma_power_limit();
            if class < usize::BITS {
                lemma_shift_is_pow2(class);
            }
        }
        Self::new_unchecked(class)
    }
}

/// Shifting one gives the power of two.
pub proof fn lemma_shift_is_pow2(class: usize)
    requires
        class < usize::BITS,
    ensures
        (1usize << class) == pow2(class as nat),
        pow2(class as nat) <= usize::MAX,
{
    lemma2_to64();
    lemma2_to64_rest();
    if usize::BITS == 64 && class < 63 {
        lemma_pow2_strictly_increases(class as nat, 63);
    }
    if usize::BITS == 32 && class < 31 {
        lemma_pow2_strictly_increases(class as nat, 31);
    }
    lemma_usize_shl_is_mul(1, class);
}

/// The regions of a valid class have between 2 MiB and 128 GiB.
pub proof fn lemma_class_bytes(class: nat)
    requires
        in_valid_range(class as int),
    ensures
        0x20_0000 <= pow2(class) <= 0x20_0000_0000,
{
    lemma2_to64();
    lemma2_to64_rest();
    if class > 21 {
        lemma_pow2_strictly_increases(21, class);
    }
    if class < 37 {
        lemma_pow2_strictly_increases(class, 37);
    }
}

/// Every size has a class.
pub proof fn lemma_has_class(bytes: nat)
    ensures
        is_class_of(class_for(bytes), bytes),
{
    lemma_beyond(bytes);
    lemma_find_class(bytes, bytes);
}

/// No number reaches its power of two.
proof fn lemma_beyond(n: nat)
    ensures
        n < pow2(n),
    decreases n,
{
    if n == 0 {
        lemma_pow2_pos(0);
    } else {
        lemma_beyond((n - 1) as nat);
        lemma_pow2_unfold(n);
    }
}

/// Below an exponent that is large enough lies the class.
proof fn lemma_find_class(bytes: nat, enough: nat)
    requires
        bytes <= pow2(enough),
    ensures
        exists|class: nat| #[trigger] is_class_of(class, bytes),
    decreases enough,
{
    if enough > 0 && bytes <= pow2((enough - 1) as nat) {
        lemma_find_class(bytes, (enough - 1) as nat);
    } else {
        assert(is_class_of(enough, bytes));
    }
}

/// A size has one class alone, and the regions of a class are what the class is for.
pub proof fn law_class_is_unique(class: nat, bytes: nat)
    ensures
        is_class_of(class, bytes) ==> class == class_for(bytes),
        class == class_for(pow2(class)),
{
    if is_class_of(class, bytes) {
        let other = class_for(bytes);
        assert(is_class_of(other, bytes));
        lemma_no_lower_class(class, other, bytes);
        lemma_no_lower_class(other, class, bytes);
    }
    if class > 0 {
        lemma_pow2_strictly_increases((class - 1) as nat, class);
    }
    let own = class_for(pow2(class));
    assert(is_class_of(class, pow2(class)));
    assert(is_class_of(own, pow2(class)));
    lemma_no_lower_class(class, own, pow2(class));
    lemma_no_lower_class(own, class, pow2(class));
}

/// Of two classes of a size, neither is below the other.
proof fn lemma_no_lower_class(low: nat, high: nat, bytes: nat)
    requires
        is_class_of(low, bytes),
        is_class_of(high, bytes),
    ensures
        low >= high,
{
    if low < high {
        if low < high - 1 {
            lemma_pow2_strictly_increases(low, (high - 1) as nat);
        }
    }
}

/// The region that a request gets is large enough, and less than twice as large as asked for,
/// unless the request is for a single byte or none.
pub proof fn law_class_fits_tightly(class: nat, bytes: nat)
    requires
        is_class_of(class, bytes),
    ensures
        bytes <= pow2(class),
        bytes > 1 ==> pow2(class) < 2 * bytes,
{
    lemma2_to64();
    if class > 0 {
        lemma_pow2_unfold(class);
    }
}

/// No machine word exceeds the power of two of its width.
proof fn lemma_power_limit()
    ensures
        usize::MAX < pow2(usize::BITS as nat),
{
    lemma2_to64();
    lemma2_to64_rest();
}

/// The class of a size is that of the least power of two that reaches it.
pub proof fn law_class_is_of_the_least_power(bytes: nat, other: nat)
    ensures
        pow2(class_for(bytes)) >= bytes,
        pow2(other) >= bytes ==> pow2(class_for(bytes)) <= pow2(other) && class_for(bytes) <= other,
        bytes > 1 ==> pow2(class_for(bytes)) < 2 * bytes,
{
    let class = class_for(bytes);
    lemma_has_class(bytes);
    law_class_fits_tightly(class, bytes);
    if pow2(other) >= bytes {
        if other < class {
            if other < class - 1 {
                lemma_pow2_strictly_increases(other, (class - 1) as nat);
            }
            assert(false);
        } else if class < other {
            lemma_pow2_strictly_increases(class, other);
        }
    }
}

/// The allocator serves exactly the sizes of more than 1 MiB and of no more than 128 GiB, in regions from
/// 2 MiB on, and each power of two from there to 128 GiB has its class.
pub proof fn law_sizes_served(bytes: nat, class: nat)
    ensures
        in_valid_range(class_for(bytes) as int) <==> 0x10_0000 < bytes <= 0x20_0000_0000,
        in_valid_range(class as int) <==> 0x20_0000 <= pow2(class) <= 0x20_0000_0000,
        VALID_SIZE_CLASS.end - VALID_SIZE_CLASS.start == SIZE_CLASS_COUNT,
{
    lemma2_to64();
    lemma2_to64_rest();
    let own = class_for(bytes);
    lemma_has_class(bytes);
    law_class_is_of_the_least_power(bytes, 20);
    law_class_is_of_the_least_power(bytes, 37);
    if own < 21 {
        if own < 20 {
            lemma_pow2_strictly_increases(own, 20);
        }
    } else if own > 21 {
        lemma_pow2_strictly_increases(20, (own - 1) as nat);
    }
    if own > 37 {
        if own > 38 {
            lemma_pow2_strictly_increases(37, (own - 1) as nat);
        }
    }
    if class < 21 {
        lemma_pow2_strictly_increases(class, 21);
    } else if in_valid_range(class as int) {
        lemma_class_bytes(class);
    } else {
        lemma_pow2_strictly_increases(37, class);
    }
}

/// A class is one of those that are served by the size of its regions alone, which is its power of two.
pub proof fn law_class_is_its_power(class: SizeClass)
    ensures
        class.bytes() == pow2(class.exponent()),
        class.valid() <==> 0x20_0000 <= pow2(class.exponent()) <= 0x20_0000_0000,
{
    law_sizes_served(0, class.exponent());
}

} // verus!
