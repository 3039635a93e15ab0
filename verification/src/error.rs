//! Error types of the allocator.
use vstd::prelude::*;

verus! {

/// An error of the operating system, carried through unread.
#[verifier::external_type_specification]
#[verifier::external_body]
pub struct ExIoError(std::io::Error);

/// Allocation errors.
#[derive(Debug)]
pub enum AllocError {
    /// IO error, unrecoverable.
    Io(std::io::Error),
    /// Out of memory, meaning that the pool is exhausted.
    OutOfMemory,
    /// Size class too large or small.
    InvalidSizeClass(usize),
    /// Allocator disabled.
    Disabled,
    /// Failed to allocate memory that suits alignment properties.
    UnalignedMemory,
}

impl AllocError {
    /// Check if this error is [`AllocError::Disabled`].
    #[must_use]
    pub fn is_disabled(&self) -> (disabled: bool)
        ensures
            disabled == (self is Disabled),
    {
        matches!(self, AllocError::Disabled)
    }
}

/// Errors from the residency advisories.
#[derive(Debug)]
pub enum AdviseError {
    /// The requested byte range exceeds the allocation.
    OutOfBounds {
        /// Byte offset of the requested range.
        byte_offset: usize,
        /// Byte length of the requested range.
        byte_len: usize,
        /// Total byte length of the allocation.
        allocation_len: usize,
    },
}

/// Errors from applying a configuration.
#[derive(Debug)]
pub enum ConfigError {
    /// The background worker thread failed to spawn.
    BackgroundWorkerFailed(std::io::Error),
}

} // verus!
