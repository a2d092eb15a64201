//! Byte ranges of address space.
use vstd::prelude::*;

verus! {

/// A contiguous byte range: a start address and a length.
///
/// A block is well formed (`wf`) when its address is not null and the range
/// ends within the address space; every operation keeps its blocks well formed.
/// A zero-size block stands for "no allocation performed".
#[derive(Clone, Copy, Debug, PartialEq, Eq, Structural)]
pub struct Block {
    /// The start address.
    pub ptr: usize,
    /// The length in bytes.
    pub size: usize,
}

impl Block {
    /// The start address.
    pub open spec fn start(self) -> int {
        self.ptr as int
    }

    /// The length in bytes.
    pub open spec fn len(self) -> int {
        self.size as int
    }

    /// One past the last address.
    pub open spec fn end(self) -> int {
        self.ptr + self.size
    }

    /// The block is well formed: non-null, and it does not run off the end of
    /// the address space.
    pub open spec fn wf(self) -> bool {
        self.ptr > 0 && self.ptr + self.size <= usize::MAX
    }

    /// Whether the address lies within the block.
    pub open spec fn contains(self, a: int) -> bool {
        self.start() <= a < self.end()
    }

    /// The two blocks share no byte. An empty block shares no byte with any.
    pub open spec fn disjoint(self, other: Block) -> bool {
        self.len() == 0 || other.len() == 0 || self.end() <= other.start() || other.end() <= self.start()
    }

    /// `other` starts exactly where `self` ends.
    pub open spec fn adjacent_to(self, other: Block) -> bool {
        self.end() == other.start()
    }

    /// Build a block from an address and a length.
    pub fn from_raw_parts(ptr: usize, size: usize) -> (r: Block)
        requires
            ptr > 0,
            ptr + size <= usize::MAX,
        ensures
            r.start() == ptr,
            r.len() == size,
            r.wf(),
    {
        Block { ptr, size }
    }

    /// The zero-size block at the given (non-null) alignment: a valid, but not
    /// dereferenceable, address.
    pub fn empty(align: usize) -> (r: Block)
        requires
            align > 0,
        ensures
            r.start() == align,
            r.len() == 0,
            r.wf(),
    {
        Block { ptr: align, size: 0 }
    }

    /// The start address.
    pub fn ptr(&self) -> (r: usize)
        ensures
            r == self.start(),
    {
        self.ptr
    }

    /// The length in bytes.
    pub fn size(&self) -> (r: usize)
        ensures
            r == self.len(),
    {
        self.size
    }

    /// Whether the block has no bytes.
    pub fn is_empty(&self) -> (r: bool)
        ensures
            r == (self.len() == 0),
    {
        self.size == 0
    }

    /// One past the last address.
    pub fn end_addr(&self) -> (r: usize)
        requires
            self.wf(),
        ensures
            r == self.end(),
    {
        self.ptr + self.size
    }

    /// Whether `other` starts exactly where `self` ends.
    pub fn is_adjacent_to(&self, other: &Block) -> (r: bool)
        requires
            self.wf(),
        ensures
            r == self.adjacent_to(*other),
    {
        self.ptr + self.size == other.ptr
    }
}

} // verus!
