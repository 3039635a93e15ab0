//! Transparent-huge-page large-object allocator with cooperative residency control.
//!
//! Memory is handed out in power-of-two size classes from 2 MiB to 128 GiB. Each size class has a
//! pool of free regions: work-stealing queues with per-thread buffering, which are refilled with
//! areas of anonymous memory that grow geometrically.
//!
//! This crate holds the rules: which region goes where, what is counted, how large the next area
//! is, what the background worker clears and when, and which residency hints are issued. It makes
//! no system call. Where memory is to be mapped, cleared or advised, a function answers with the
//! request, and its caller reports back what came of it. The pools are used by exclusive reference,
//! on a machine with 64-bit words.
//!
//! - [`Buffer`]: a Vec-like, length-tracking buffer with allocator-or-heap backing.
//! - [`RawBuffer`]: the underlying fixed-capacity primitive.
//! - [`allocate`]: memory for elements of a type, with a [`Handle`] that goes back to the pool by
//!   [`ThreadLocalStealer::release`].
//! - [`builder`]: the configuration.
//! - [`stats`](fn@stats): statistics per size class.
//! - [`ledger`], [`books`] and [`laws`]: what holds of the allocator as a whole.
//! - [`requests`]: what requests, releases and ticks do, told by what is seen before and after.
//! - [`history`] and [`counters`]: what holds whatever happened since the pools were new.

pub mod advise;
pub mod allocation;
pub mod background;
pub mod books;
pub mod buffer;
pub mod class_state;
pub mod config;
pub mod counters;
pub mod error;
pub mod handle;
pub mod history;
pub mod laws;
pub mod ledger;
pub mod model;
pub mod pool;
pub mod queue;
pub mod requests;
pub mod size_class;
pub mod stats;

pub use advise::{Advice, Hint, Os};
pub use allocation::{allocate, allocate_mapped, allocate_with_page, Allocation, AreaRequest, Step};
pub use background::BackgroundWorker;
pub use buffer::{Buffer, RawBuffer};
pub use config::{builder, Builder, Settings};
pub use error::{AdviseError, AllocError, ConfigError};
pub use handle::Handle;
pub use pool::{stats, GlobalStealer, ThreadLocalStealer};
pub use size_class::{SizeClass, VALID_SIZE_CLASS};
pub use stats::{SizeClassStats, Stats};
