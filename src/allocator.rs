//! The allocator facade.
//!
//! An `Allocator` owns one bookkeeper and a ledger of outstanding allocations.
//! The embedding program keeps exactly one instance behind one lock, and every
//! public operation runs under that lock.
use vstd::prelude::*;
use crate::block::Block;
use crate::bookkeeper::{
    Bookkeeper, GROWTH_SLACK, apart, covers, total, needed, none_fits, inplace_possible, first_fit, pad,
    pool_wf, first_fit_in, merged_with, len_after_free, after_extend, lemma_apart_iff,
};

verus! {

/// The ledger's count after one more allocation (it saturates).
pub open spec fn count_up(n: usize) -> usize {
    if n == usize::MAX {
        n
    } else {
        (n + 1) as usize
    }
}

/// The ledger's count after handing out a block of `size` bytes: an empty
/// block is no allocation.
pub open spec fn ledger_after_alloc(n: usize, size: int) -> usize {
    if size > 0 {
        count_up(n)
    } else {
        n
    }
}

/// The ledger's count after freeing a block of `size` bytes.
pub open spec fn ledger_after_free(n: usize, size: int) -> usize {
    if size > 0 {
        count_down(n)
    } else {
        n
    }
}

/// The ledger's count after resizing a block in place: shrinking it to
/// nothing ends the allocation.
pub open spec fn ledger_after_resize(n: usize, old_size: int, new_size: int) -> usize {
    if old_size > 0 && new_size == 0 {
        count_down(n)
    } else {
        n
    }
}

/// The ledger's count after one more release (it stops at zero).
pub open spec fn count_down(n: usize) -> usize {
    if n == 0 {
        0
    } else {
        (n - 1) as usize
    }
}

/// The allocator: the bookkeeper, the number of allocations handed out and
/// not yet freed, and an account of the space it has seen.
pub struct Allocator {
    inner: Bookkeeper,
    live: usize,
    obtained: Ghost<int>,
    in_use: Ghost<int>,
}

impl View for Allocator {
    type V = Seq<Block>;

    /// The free list.
    closed spec fn view(&self) -> Seq<Block> {
        self.inner@
    }
}

impl Allocator {
    /// The number of outstanding allocations recorded by the ledger.
    pub closed spec fn outstanding(self) -> usize {
        self.live
    }

    /// The bytes taken in from the heap provider so far.
    pub closed spec fn obtained(self) -> int {
        self.obtained@
    }

    /// The bytes of all outstanding allocations.
    pub closed spec fn in_use(self) -> int {
        self.in_use@
    }

    /// The allocator's invariant: the free list is well formed (sorted,
    /// disjoint, coalesced), and the free bytes and the bytes in use add up to
    /// the space obtained.
    pub open spec fn wf(self) -> bool {
        &&& pool_wf(self@)
        &&& total(self@) + self.in_use() == self.obtained()
    }

    /// Same free list, same ledger, same account.
    pub open spec fn unchanged_from(self, other: Allocator) -> bool {
        &&& self@ == other@
        &&& self.outstanding() == other.outstanding()
        &&& self.obtained() == other.obtained()
        &&& self.in_use() == other.in_use()
    }

    /// A new allocator: nothing free, nothing outstanding, nothing obtained.
    pub fn new() -> (r: Allocator)
        ensures
            r.wf(),
            r@ == Seq::<Block>::empty(),
            r.outstanding() == 0,
            r.obtained() == 0,
            r.in_use() == 0,
    {
        Allocator { inner: Bookkeeper::new(), live: 0, obtained: Ghost(0), in_use: Ghost(0) }
    }

    /// Allocate `size` bytes aligned to `align` from free space, first fit.
    /// `None` when the free list cannot serve the request: the caller then
    /// obtains `grow_request(size, align)` bytes from the heap provider and
    /// calls `allocate_grown`. A zero-size request always succeeds, and is no
    /// allocation: the ledger does not count it.
    pub fn allocate(&mut self, size: usize, align: usize) -> (r: Option<Block>)
        requires
            old(self).wf(),
            align > 0,
        ensures
            final(self).wf(),
            r is None <==> size > 0 && none_fits(old(self)@, size as int, align as int),
            r is None ==> final(self).unchanged_from(*old(self)),
            size == 0 ==> final(self)@ == old(self)@ && r == Some(Block { ptr: align, size: 0 }),
            r matches Some(b) ==> {
                &&& b.wf()
                &&& b.len() == size
                &&& b.start() % (align as int) == 0
                &&& size > 0 ==> first_fit_in(old(self)@, b, size as int, align as int)
                &&& forall|a: int| b.contains(a) ==> covers(old(self)@, a)
                &&& forall|a: int| #![trigger covers(final(self)@, a)] covers(final(self)@, a) <==> covers(old(self)@, a) && !b.contains(a)
                &&& apart(final(self)@, b)
                &&& total(final(self)@) == total(old(self)@) - size
                &&& final(self).outstanding() == ledger_after_alloc(old(self).outstanding(), size as int)
                &&& final(self).in_use() == old(self).in_use() + size
                &&& final(self).obtained() == old(self).obtained()
            },
    {
        let r = self.inner.allocate(size, align);
        if r.is_some() && size > 0 {
            self.live = if self.live == usize::MAX { self.live } else { self.live + 1 };
        }
        if r.is_some() {
            self.in_use = Ghost(self.in_use@ + size);
            proof {
                lemma_apart_iff(self@, r->Some_0);
                if size > 0 {
                    let b = r->Some_0;
                    let k = choose|k: int|
                        first_fit(old(self)@, k, size as int, align as int) && b.start() == (
                        #[trigger] old(self)@[k]).start() + pad(old(self)@[k].start(), align as int);
                    assert(first_fit_in(old(self)@, b, size as int, align as int));
                }
            }
        }
        r
    }

    /// How many bytes to obtain from the heap provider after `allocate`
    /// returned `None`: enough for the request wherever the space starts, plus
    /// `GROWTH_SLACK`. `None` when that does not fit in the address space.
    pub fn grow_request(size: usize, align: usize) -> (r: Option<usize>)
        requires
            align > 0,
        ensures
            r == (if needed(size as int, align as int) + GROWTH_SLACK <= usize::MAX {
                Some((needed(size as int, align as int) + GROWTH_SLACK) as usize)
            } else {
                None
            }),
    {
        Bookkeeper::grow_request(size, align)
    }

    /// Take in `space` from the heap provider, merged with any adjacent free
    /// space, and retry the first-fit scan once. This always succeeds.
    pub fn allocate_grown(&mut self, size: usize, align: usize, space: Block) -> (r: Block)
        requires
            old(self).wf(),
            align > 0,
            space.wf(),
            apart(old(self)@, space),
            space.len() >= needed(size as int, align as int),
        ensures
            final(self).wf(),
            r.wf(),
            r.len() == size,
            r.start() % (align as int) == 0,
            size > 0 ==> exists|g: Seq<Block>|
                #[trigger] merged_with(g, old(self)@, space) && first_fit_in(g, r, size as int, align as int),
            forall|a: int| r.contains(a) ==> covers(old(self)@, a) || space.contains(a),
            forall|a: int| #![trigger covers(final(self)@, a)]
                covers(final(self)@, a) <==> (covers(old(self)@, a) || space.contains(a)) && !r.contains(a),
            apart(final(self)@, r),
            final(self).outstanding() == ledger_after_alloc(old(self).outstanding(), size as int),
            final(self).in_use() == old(self).in_use() + size,
            final(self).obtained() == old(self).obtained() + space.len(),
    {
        let r = self.inner.allocate_grown(size, align, space);
        if size > 0 {
            self.live = if self.live == usize::MAX { self.live } else { self.live + 1 };
        }
        self.in_use = Ghost(self.in_use@ + size);
        self.obtained = Ghost(self.obtained@ + space.size);
        proof {
            lemma_apart_iff(self@, r);
        }
        r
    }

    /// Free a block handed out earlier, with the size it was allocated with.
    /// It merges with the free entry before it, the one after it, both, or
    /// becomes an entry of its own. Freeing an empty block changes nothing.
    pub fn free(&mut self, b: Block)
        requires
            old(self).wf(),
            b.wf(),
            apart(old(self)@, b),
        ensures
            final(self).wf(),
            b.len() == 0 ==> final(self).unchanged_from(*old(self)),
            forall|a: int| #![trigger covers(final(self)@, a)] covers(final(self)@, a) <==> covers(old(self)@, a) || b.contains(a),
            total(final(self)@) == total(old(self)@) + b.len(),
            final(self)@.len() == len_after_free(old(self)@, b),
            final(self).outstanding() == ledger_after_free(old(self).outstanding(), b.len()),
            final(self).in_use() == old(self).in_use() - b.len(),
            final(self).obtained() == old(self).obtained(),
    {
        self.inner.free(b);
        if b.size > 0 {
            self.live = if self.live == 0 { 0 } else { self.live - 1 };
        }
        self.in_use = Ghost(self.in_use@ - b.size);
    }

    /// Resize a block without moving it; on failure nothing changes.
    /// Shrinking gives the tail back to the free list; growing takes the
    /// missing bytes from the front of the free entry right after the block.
    pub fn realloc_inplace(&mut self, b: Block, new_size: usize) -> (r: bool)
        requires
            old(self).wf(),
            b.wf(),
            apart(old(self)@, b),
        ensures
            final(self).wf(),
            r == inplace_possible(old(self)@, b, new_size as int),
            !r ==> final(self).unchanged_from(*old(self)),
            r ==> forall|a: int| #![trigger covers(final(self)@, a)]
                covers(final(self)@, a) <==> (covers(old(self)@, a) || b.contains(a)) && !(b.start() <= a < b.start() + new_size),
            r ==> apart(final(self)@, Block { ptr: b.ptr, size: new_size }),
            r ==> total(final(self)@) == total(old(self)@) + b.len() - new_size,
            r && new_size > b.len() ==> exists|i: int|
                0 <= i < old(self)@.len() && (#[trigger] old(self)@[i]).start() == b.end() && final(self)@ == after_extend(
                    old(self)@,
                    i,
                    b,
                    new_size as int,
                ),
            r && new_size <= b.len() ==> final(self)@.len() == len_after_free(
                old(self)@,
                Block { ptr: (b.start() + new_size) as usize, size: (b.len() - new_size) as usize },
            ),
            r ==> final(self).in_use() == old(self).in_use() - b.len() + new_size,
            r ==> final(self).outstanding() == ledger_after_resize(old(self).outstanding(), b.len(), new_size as int),
            final(self).obtained() == old(self).obtained(),
    {
        let r = self.inner.realloc_inplace(b, new_size);
        if r {
            if b.size > 0 && new_size == 0 {
                self.live = if self.live == 0 { 0 } else { self.live - 1 };
            }
            self.in_use = Ghost(self.in_use@ - b.size + new_size);
            proof {
                lemma_apart_iff(self@, Block { ptr: b.ptr, size: new_size });
            }
        }
        r
    }

    /// Reallocate: resize in place when possible, and otherwise allocate a new
    /// block from free space. When the result starts elsewhere than `b`, the
    /// old block is still allocated: the caller copies the first
    /// `min(b.size, new_size)` bytes over and then frees `b`. `None` when
    /// neither works: the caller grows the heap and calls `allocate_grown`.
    pub fn realloc(&mut self, b: Block, new_size: usize, align: usize) -> (r: Option<Block>)
        requires
            old(self).wf(),
            b.wf(),
            apart(old(self)@, b),
            align > 0,
        ensures
            final(self).wf(),
            r is None <==> !inplace_possible(old(self)@, b, new_size as int) && new_size > 0 && none_fits(
                old(self)@,
                new_size as int,
                align as int,
            ),
            r is None ==> final(self).unchanged_from(*old(self)),
            r matches Some(nb) ==> nb.wf() && nb.len() == new_size && apart(final(self)@, nb),
            final(self).obtained() == old(self).obtained(),
            inplace_possible(old(self)@, b, new_size as int) ==> {
                &&& r == Some(Block { ptr: b.ptr, size: new_size })
                &&& forall|a: int| #![trigger covers(final(self)@, a)]
                    covers(final(self)@, a) <==> (covers(old(self)@, a) || b.contains(a)) && !(b.start() <= a < b.start() + new_size)
                &&& total(final(self)@) == total(old(self)@) + b.len() - new_size
                &&& final(self).in_use() == old(self).in_use() - b.len() + new_size
                &&& final(self).outstanding() == ledger_after_resize(old(self).outstanding(), b.len(), new_size as int)
            },
            r matches Some(nb) ==> !inplace_possible(old(self)@, b, new_size as int) ==> {
                &&& nb.disjoint(b)
                &&& apart(final(self)@, b)
                &&& nb.start() % (align as int) == 0
                &&& new_size > 0 ==> first_fit_in(old(self)@, nb, new_size as int, align as int)
                &&& forall|a: int| nb.contains(a) ==> covers(old(self)@, a)
                &&& forall|a: int| #![trigger covers(final(self)@, a)] covers(final(self)@, a) <==> covers(old(self)@, a) && !nb.contains(a)
                &&& total(final(self)@) == total(old(self)@) - new_size
                &&& final(self).in_use() == old(self).in_use() + new_size
                &&& final(self).outstanding() == ledger_after_alloc(old(self).outstanding(), new_size as int)
            },
            r is Some && new_size >= b.len() ==> apart(final(self)@, b),
    {
        let ghost s = self@;
        proof {
            lemma_apart_iff(s, b);
        }
        if self.realloc_inplace(b, new_size) {
            proof {
                lemma_apart_iff(self@, b);
            }
            Some(Block { ptr: b.ptr, size: new_size })
        } else {
            let r = self.allocate(new_size, align);
            proof {
                lemma_apart_iff(self@, b);
                if r is Some {
                    let nb = r->Some_0;
                    if !nb.disjoint(b) {
                        let a = if nb.start() < b.start() { b.start() } else { nb.start() };
                        assert(nb.contains(a) && b.contains(a));
                    }
                }
            }
            r
        }
    }

    /// Whether the block shares no byte with free space, as a block handed
    /// out and not yet freed does; `free` and the reallocations need it.
    pub fn is_apart(&self, b: Block) -> (r: bool)
        requires
            self.wf(),
            b.wf(),
        ensures
            r == apart(self@, b),
    {
        self.inner.is_apart(b)
    }

    /// The number of outstanding allocations recorded by the ledger.
    pub fn leak_count(&self) -> (r: usize)
        ensures
            r == self.outstanding(),
    {
        self.live
    }

    /// The leak check: whether no allocation is outstanding. The embedding
    /// program reports a leak through the diagnostic writer and aborts.
    pub fn debug_assert_no_leak(&self) -> (r: bool)
        ensures
            r == (self.outstanding() == 0),
    {
        self.live == 0
    }

    /// The number of entries of the free list.
    pub fn free_entries(&self) -> (r: usize)
        ensures
            r == self@.len(),
    {
        self.inner.len()
    }

    /// The entry of the free list at position `i`.
    pub fn free_entry(&self, i: usize) -> (r: Block)
        requires
            i < self@.len(),
        ensures
            r == self@[i as int],
    {
        self.inner.entry(i)
    }
}

/// An allocation followed by the release of its block leaves the ledger's
/// count as it was.
pub proof fn lemma_ledger_balances(n: usize)
    requires
        n < usize::MAX,
    ensures
        count_down(count_up(n)) == n,
{
}

/// Accounting: at every point the free bytes and the bytes of all outstanding
/// allocations add up to the space obtained from the heap provider.
pub proof fn lemma_space_accounted(a: Allocator)
    requires
        a.wf(),
    ensures
        total(a@) + a.in_use() == a.obtained(),
{
}

} // verus!
