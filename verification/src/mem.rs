//! Physical memory management: the bitmap-tree page allocator and the bump
//! allocator that lays out its metadata.

use vstd::prelude::*;

pub mod bits;
pub mod bump_alloc;
pub mod geometry;
pub mod page_alloc;
pub mod region;
pub mod shared_region;
pub mod shared_tree;
pub mod walk;

verus! {

/// A page number: the page's address divided by `PAGE_SIZE`.
pub type PageNum = usize;

/// Size of a physical page in bytes.
pub const PAGE_SIZE: usize = 4096;

/// Number of bits in one word of a bitmap tree, which is also the tree's
/// branching factor.
pub const WORD_BITS: usize = 64;

/// A word with every bit set.
pub const WORD_MAX: u64 = 0xffff_ffff_ffff_ffff;

/// Largest supported tree height. A tree of this height tracks `64^5` pages,
/// which is 4 TiB of memory at 4 KiB per page.
pub const MAX_HEIGHT: usize = 5;

} // verus!
