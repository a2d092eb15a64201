//! A first-fit, coalescing memory allocator engine.
//!
//! Address space is described by [`Block`]s. The [`Bookkeeper`] keeps the free
//! list sorted by address and coalesced, and the [`Allocator`] is the facade that
//! every caller goes through. Growing the address space, copying bytes and
//! locking are left to the embedding program: the engine tells it what to do.
pub mod block;
pub mod bookkeeper;
pub mod allocator;
pub mod write;

pub use block::Block;
pub use bookkeeper::Bookkeeper;
pub use allocator::Allocator;
pub use write::Writer;
