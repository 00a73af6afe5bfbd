//! A pluggable memory-allocation core, modelled and verified.
//!
//! The crate describes memory records with a layout calculus (`Kind`),
//! states an allocator capability as a trait whose contracts speak of a
//! map from addresses to live blocks, derives the convenience operations
//! every allocator gets for free, and builds two clients on top: a
//! growable buffer and a bump-pointer arena allocator with backward
//! coalescing.

pub mod allocator;
pub mod raw_vec;
pub mod bump_alloc;
pub mod boxed;
pub mod boxing;
