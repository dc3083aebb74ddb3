//! A fixed-region memory allocator with in-band block headers.
//!
//! The core is [`implicit::ImplicitAllocator`], a first-fit allocator over an
//! implicit free list. [`bump::BumpAllocator`] is a minimal non-reclaiming
//! alternative with the same allocate/free shape.

pub mod bump;
pub mod implicit;
pub mod utils;
