//! The free-list bookkeeper: the allocation engine.
//!
//! The free list is a sequence of blocks sorted by address in which every entry
//! ends strictly before the next one starts: entries never overlap and are never
//! adjacent, since adjacent free space is always merged into one entry.
use vstd::prelude::*;
use crate::block::Block;
use vstd::arithmetic::div_mod::{lemma_fundamental_div_mod, lemma_mod_multiples_basic};

verus! {

/// The free list is sorted, non-overlapping, coalesced, and holds no empty or
/// ill-formed entries.
pub open spec fn pool_wf(s: Seq<Block>) -> bool {
    &&& forall|i: int| 0 <= i < s.len() ==> (#[trigger] s[i]).wf() && s[i].len() > 0
    &&& forall|i: int, j: int| 0 <= i < j < s.len() ==> (#[trigger] s[i]).end() < (#[trigger] s[j]).start()
}

/// Whether the address is free: some entry of the free list holds it.
pub open spec fn covers(s: Seq<Block>, a: int) -> bool {
    exists|i: int| 0 <= i < s.len() && (#[trigger] s[i]).contains(a)
}

/// The total number of free bytes.
pub open spec fn total(s: Seq<Block>) -> int
    decreases s.len(),
{
    if s.len() == 0 {
        0
    } else {
        total(s.drop_last()) + s.last().len()
    }
}

/// The block shares no byte with any entry of the free list.
pub open spec fn apart(s: Seq<Block>, b: Block) -> bool {
    forall|i: int| 0 <= i < s.len() ==> b.disjoint(#[trigger] s[i])
}

/// The bytes to skip from `p` to reach the next multiple of `align`.
pub open spec fn pad(p: int, align: int) -> int {
    if p % align == 0 {
        0
    } else {
        align - p % align
    }
}

/// The entry can serve `size` bytes at an address aligned to `align`.
pub open spec fn fits(e: Block, size: int, align: int) -> bool {
    pad(e.start(), align) + size <= e.len()
}

/// `i` is the first entry of the free list that can serve the request.
pub open spec fn first_fit(s: Seq<Block>, i: int, size: int, align: int) -> bool {
    &&& 0 <= i < s.len()
    &&& fits(s[i], size, align)
    &&& forall|j: int| 0 <= j < i ==> !fits(#[trigger] s[j], size, align)
}

/// No entry of the free list can serve the request.
pub open spec fn none_fits(s: Seq<Block>, size: int, align: int) -> bool {
    forall|i: int| 0 <= i < s.len() ==> !fits(#[trigger] s[i], size, align)
}

/// The entry that starts where the block ends has at least `extra` bytes.
pub open spec fn can_extend(s: Seq<Block>, b: Block, extra: int) -> bool {
    exists|i: int| 0 <= i < s.len() && (#[trigger] s[i]).start() == b.end() && s[i].len() >= extra
}

/// Whether the block can be resized to `new_size` where it stands: shrinking
/// always can; growing a non-empty block can when the free entry right after
/// it holds the missing bytes.
pub open spec fn inplace_possible(s: Seq<Block>, b: Block, new_size: int) -> bool {
    new_size <= b.len() || (b.len() > 0 && b.start() + new_size <= usize::MAX && can_extend(
        s,
        b,
        new_size - b.len(),
    ))
}

/// Some entry of the free list ends at `p`.
pub open spec fn ends_at(s: Seq<Block>, p: int) -> bool {
    exists|i: int| 0 <= i < s.len() && (#[trigger] s[i]).end() == p
}

/// Some entry of the free list starts at `p`.
pub open spec fn starts_at(s: Seq<Block>, p: int) -> bool {
    exists|i: int| 0 <= i < s.len() && (#[trigger] s[i]).start() == p
}

/// The number of entries after freeing `b`: one more, less one if it merges
/// with the entry before it, less one if it merges with the entry after it.
/// An empty block changes nothing.
pub open spec fn len_after_free(s: Seq<Block>, b: Block) -> int {
    if b.len() == 0 {
        s.len() as int
    } else {
        s.len() + 1 - (if ends_at(s, b.start()) { 1int } else { 0int }) - (if starts_at(s, b.end()) { 1int } else { 0int })
    }
}

/// `g` is the well-formed free list whose free bytes are those of `s` and of
/// `space`: `space` merged into `s`.
pub open spec fn merged_with(g: Seq<Block>, s: Seq<Block>, space: Block) -> bool {
    &&& pool_wf(g)
    &&& forall|a: int| #![trigger covers(g, a)] covers(g, a) <==> covers(s, a) || space.contains(a)
}

/// `r` is what first fit carves out of `g` for the request.
pub open spec fn first_fit_in(g: Seq<Block>, r: Block, size: int, align: int) -> bool {
    exists|i: int| first_fit(g, i, size, align) && r.start() == (#[trigger] g[i]).start() + pad(g[i].start(), align)
}

/// The free list after growing `b` to `new_size` in place out of the entry
/// `e` that follows it: `e` shrunk from the front, or gone if used up.
pub open spec fn after_extend(s: Seq<Block>, i: int, b: Block, new_size: int) -> Seq<Block> {
    let extra = new_size - b.len();
    if s[i].len() == extra {
        s.remove(i)
    } else {
        s.update(i, Block { ptr: (b.start() + new_size) as usize, size: (s[i].len() - extra) as usize })
    }
}

/// Skipping the padding lands on a multiple of the alignment.
pub proof fn lemma_pad_aligns(p: int, align: int)
    requires
        p >= 0,
        align > 0,
    ensures
        0 <= pad(p, align) < align,
        (p + pad(p, align)) % align == 0,
{
    lemma_fundamental_div_mod(p, align);
    if p % align == 0 {
    } else {
        let q = p / align;
        assert(p + pad(p, align) == (q + 1) * align) by (nonlinear_arith)
            requires
                p == align * q + p % align,
                pad(p, align) == align - p % align,
        ;
        lemma_mod_multiples_basic(q + 1, align);
    }
}

/// The padding needed to align `p`.
fn pad_of(p: usize, align: usize) -> (r: usize)
    requires
        align > 0,
    ensures
        r == pad(p as int, align as int),
        r < align,
{
    let rem = p % align;
    if rem == 0 {
        0
    } else {
        align - rem
    }
}

/// The extra bytes asked of the heap provider on each growth, so that later
/// requests find room without growing again.
pub const GROWTH_SLACK: usize = 4096;

/// The least number of bytes that, wherever they start, can serve `size` bytes
/// aligned to `align`.
pub open spec fn needed(size: int, align: int) -> int {
    size + align - 1
}

/// Free space that covers every byte of a non-empty range lies in one entry,
/// since entries are never adjacent.
pub proof fn lemma_range_in_one_entry(s: Seq<Block>, r: Block)
    requires
        pool_wf(s),
        r.len() > 0,
        forall|a: int| r.contains(a) ==> covers(s, a),
    ensures
        exists|i: int| 0 <= i < s.len() && (#[trigger] s[i]).start() <= r.start() && r.end() <= s[i].end(),
{
    assert(r.contains(r.start()));
    let i = choose|i: int| 0 <= i < s.len() && (#[trigger] s[i]).contains(r.start());
    if s[i].end() < r.end() {
        assert(r.contains(s[i].end()));
        let j = choose|j: int| 0 <= j < s.len() && (#[trigger] s[j]).contains(s[i].end());
        if j < i {
            assert(s[j].end() < s[i].start());
        } else if j > i {
            assert(s[i].end() < s[j].start());
        }
    }
}

proof fn lemma_total_concat(a: Seq<Block>, b: Seq<Block>)
    ensures
        total(a + b) == total(a) + total(b),
    decreases b.len(),
{
    if b.len() > 0 {
        assert((a + b).drop_last() =~= a + b.drop_last());
        lemma_total_concat(a, b.drop_last());
    } else {
        assert(a + b =~= a);
    }
}

proof fn lemma_total_split(s: Seq<Block>, i: int)
    requires
        0 <= i < s.len(),
    ensures
        total(s) == total(s.subrange(0, i)) + s[i].len() + total(s.subrange(i + 1, s.len() as int)),
{
    let a = s.subrange(0, i);
    let c = s.subrange(i + 1, s.len() as int);
    assert(s =~= a + seq![s[i]] + c);
    lemma_total_concat(a + seq![s[i]], c);
    lemma_total_concat(a, seq![s[i]]);
    assert(seq![s[i]].drop_last() =~= Seq::<Block>::empty());
    assert(total(Seq::<Block>::empty()) == 0);
    assert(total(seq![s[i]]) == s[i].len());
}

proof fn lemma_total_update(s: Seq<Block>, i: int, x: Block)
    requires
        0 <= i < s.len(),
    ensures
        total(s.update(i, x)) == total(s) - s[i].len() + x.len(),
{
    let t = s.update(i, x);
    lemma_total_split(s, i);
    lemma_total_split(t, i);
    assert(t.subrange(0, i) =~= s.subrange(0, i));
    assert(t.subrange(i + 1, t.len() as int) =~= s.subrange(i + 1, s.len() as int));
}

proof fn lemma_total_insert(s: Seq<Block>, i: int, x: Block)
    requires
        0 <= i <= s.len(),
    ensures
        total(s.insert(i, x)) == total(s) + x.len(),
{
    let t = s.insert(i, x);
    lemma_total_split(t, i);
    assert(t.subrange(0, i) =~= s.subrange(0, i));
    assert(t.subrange(i + 1, t.len() as int) =~= s.subrange(i, s.len() as int));
    assert(s =~= s.subrange(0, i) + s.subrange(i, s.len() as int));
    lemma_total_concat(s.subrange(0, i), s.subrange(i, s.len() as int));
}

proof fn lemma_total_remove(s: Seq<Block>, i: int)
    requires
        0 <= i < s.len(),
    ensures
        total(s.remove(i)) == total(s) - s[i].len(),
{
    let t = s.remove(i);
    lemma_total_split(s, i);
    assert(t =~= s.subrange(0, i) + s.subrange(i + 1, s.len() as int));
    lemma_total_concat(s.subrange(0, i), s.subrange(i + 1, s.len() as int));
}

/// The allocation engine: it owns the free list.
pub struct Bookkeeper {
    pool: Vec<Block>,
}

impl View for Bookkeeper {
    type V = Seq<Block>;

    closed spec fn view(&self) -> Seq<Block> {
        self.pool@
    }
}

impl Bookkeeper {
    /// The bookkeeper's invariant.
    pub open spec fn wf(self) -> bool {
        pool_wf(self@)
    }

    /// Whether the address is currently free.
    pub open spec fn is_free(self, a: int) -> bool {
        covers(self@, a)
    }

    /// The total number of free bytes.
    pub open spec fn free_bytes(self) -> int {
        total(self@)
    }

    /// An empty bookkeeper: nothing is free.
    pub fn new() -> (r: Bookkeeper)
        ensures
            r.wf(),
            r@ == Seq::<Block>::empty(),
    {
        Bookkeeper { pool: Vec::new() }
    }

    /// The number of entries in the free list.
    pub fn len(&self) -> (r: usize)
        ensures
            r == self@.len(),
    {
        self.pool.len()
    }

    /// The entry of the free list at the given position.
    pub fn entry(&self, i: usize) -> (r: Block)
        requires
            i < self@.len(),
        ensures
            r == self@[i as int],
    {
        self.pool[i]
    }


    /// The number of entries that start below `key`: where an entry starting
    /// at `key` would go (binary search).
    fn search(&self, key: usize) -> (r: usize)
        requires
            self.wf(),
        ensures
            r <= self@.len(),
            forall|j: int| 0 <= j < r ==> (#[trigger] self@[j]).start() < key,
            forall|j: int| r <= j < self@.len() ==> (#[trigger] self@[j]).start() >= key,
    {
        let mut lo: usize = 0;
        let mut hi: usize = self.pool.len();
        while lo < hi
            invariant
                self.wf(),
                lo <= hi <= self@.len(),
                forall|j: int| 0 <= j < lo ==> (#[trigger] self@[j]).start() < key,
                forall|j: int| hi <= j < self@.len() ==> (#[trigger] self@[j]).start() >= key,
            decreases hi - lo,
        {
            let mid = lo + (hi - lo) / 2;
            if self.pool[mid].ptr < key {
                assert forall|j: int| 0 <= j <= mid implies (#[trigger] self@[j]).start() < key by {
                    if j < mid {
                        assert(self@[j].end() < self@[mid as int].start());
                    }
                }
                lo = mid + 1;
            } else {
                assert forall|j: int| mid <= j < self@.len() implies (#[trigger] self@[j]).start() >= key by {
                    if j > mid {
                        assert(self@[mid as int].end() < self@[j].start());
                    }
                }
                hi = mid;
            }
        }
        lo
    }

    /// Whether the block shares no byte with free space: a block that was
    /// handed out and not freed always does.
    pub fn is_apart(&self, b: Block) -> (r: bool)
        requires
            self.wf(),
            b.wf(),
        ensures
            r == apart(self@, b),
    {
        if b.size == 0 {
            return true;
        }
        let idx = self.search(b.ptr);
        let n = self.pool.len();
        let before_ok = idx == 0 || self.pool[idx - 1].ptr + self.pool[idx - 1].size <= b.ptr;
        let after_ok = idx == n || b.ptr + b.size <= self.pool[idx].ptr;
        proof {
            let s = self@;
            if before_ok && after_ok {
                assert forall|i: int| 0 <= i < s.len() implies b.disjoint(#[trigger] s[i]) by {
                    if i < idx - 1 {
                        assert(s[i].end() < s[idx - 1].start());
                    } else if i > idx {
                        assert(s[idx as int].end() < s[i].start());
                    }
                }
            } else if !before_ok {
                assert(!b.disjoint(s[idx - 1]));
            } else {
                assert(!b.disjoint(s[idx as int]));
            }
        }
        before_ok && after_ok
    }

    /// Give a non-empty block back to the free list, merging it with the
    /// entries right before and right after it when they are adjacent.
    fn insert_free(&mut self, b: Block)
        requires
            old(self).wf(),
            b.wf(),
            b.len() > 0,
            apart(old(self)@, b),
        ensures
            final(self).wf(),
            forall|a: int| #![trigger covers(final(self)@, a)] #![trigger covers(old(self)@, a)] covers(final(self)@, a) <==> covers(old(self)@, a) || b.contains(a),
            total(final(self)@) == total(old(self)@) + b.len(),
            final(self)@.len() == len_after_free(old(self)@, b),
    {
        let ghost s = self@;
        let idx = self.search(b.ptr);
        let n = self.pool.len();
        assert forall|j: int| 0 <= j < idx implies (#[trigger] s[j]).end() <= b.start() by {
            assert(b.disjoint(s[j]));
        }
        assert forall|j: int| idx <= j < n implies (#[trigger] s[j]).start() >= b.end() by {
            assert(b.disjoint(s[j]));
        }
        let merge_prev = idx > 0 && self.pool[idx - 1].ptr + self.pool[idx - 1].size == b.ptr;
        let merge_next = idx < n && b.ptr + b.size == self.pool[idx].ptr;
        assert(merge_prev == ends_at(s, b.start())) by {
            if ends_at(s, b.start()) {
                let j = choose|j: int| 0 <= j < s.len() && (#[trigger] s[j]).end() == b.start();
                if j < idx - 1 {
                    assert(s[j].end() < s[idx - 1].start());
                }
            }
            if merge_prev {
                assert(s[idx - 1].end() == b.start());
            }
        }
        assert(merge_next == starts_at(s, b.end())) by {
            if starts_at(s, b.end()) {
                let j = choose|j: int| 0 <= j < s.len() && (#[trigger] s[j]).start() == b.end();
                if j > idx {
                    assert(s[idx as int].end() < s[j].start());
                }
            }
            if merge_next {
                assert(s[idx as int].start() == b.end());
            }
        }
        if merge_prev && merge_next {
            let p = self.pool[idx - 1];
            let q = self.pool[idx];
            let m = Block { ptr: p.ptr, size: p.size + b.size + q.size };
            self.pool.remove(idx);
            let ghost t = self@;
            self.pool.set(idx - 1, m);
            proof {
                lemma_total_remove(s, idx as int);
                lemma_total_update(t, idx - 1, m);
                lemma_update_wf(t, idx - 1, m);
                lemma_remove_wf(s, idx as int);
                assert forall|a: int| covers(self@, a) <==> covers(s, a) || b.contains(a) by {
                    lemma_covers_remove(s, idx as int, a);
                    lemma_covers_update(t, idx - 1, m, a);
                    if q.contains(a) {
                        assert(s[idx as int].contains(a));
                    }
                    if p.contains(a) {
                        assert(s[idx - 1].contains(a));
                    }
                }
            }
        } else if merge_prev {
            let p = self.pool[idx - 1];
            let m = Block { ptr: p.ptr, size: p.size + b.size };
            self.pool.set(idx - 1, m);
            proof {
                lemma_total_update(s, idx - 1, m);
                lemma_update_wf(s, idx - 1, m);
                assert forall|a: int| covers(self@, a) <==> covers(s, a) || b.contains(a) by {
                    lemma_covers_update(s, idx - 1, m, a);
                    if p.contains(a) {
                        assert(s[idx - 1].contains(a));
                    }
                }
            }
        } else if merge_next {
            let q = self.pool[idx];
            let m = Block { ptr: b.ptr, size: b.size + q.size };
            self.pool.set(idx, m);
            proof {
                lemma_total_update(s, idx as int, m);
                lemma_update_wf(s, idx as int, m);
                assert forall|a: int| covers(self@, a) <==> covers(s, a) || b.contains(a) by {
                    lemma_covers_update(s, idx as int, m, a);
                    if q.contains(a) {
                        assert(s[idx as int].contains(a));
                    }
                }
            }
        } else {
            self.pool.insert(idx, b);
            proof {
                lemma_total_insert(s, idx as int, b);
                lemma_insert_wf(s, idx as int, b);
                assert forall|a: int| covers(self@, a) <==> covers(s, a) || b.contains(a) by {
                    lemma_covers_insert(s, idx as int, b, a);
                }
            }
        }
    }

    /// Carve `size` bytes after `pad` bytes of padding out of entry `i`. The
    /// padding in front and the remainder behind stay in the free list, each
    /// as an entry of its own.
    fn carve(&mut self, i: usize, pad: usize, size: usize) -> (r: Block)
        requires
            old(self).wf(),
            i < old(self)@.len(),
            size > 0,
            pad + size <= old(self)@[i as int].len(),
        ensures
            final(self).wf(),
            r.wf(),
            r.start() == old(self)@[i as int].start() + pad,
            r.len() == size,
            forall|a: int| r.contains(a) ==> covers(old(self)@, a),
            forall|a: int| #![trigger covers(final(self)@, a)] #![trigger covers(old(self)@, a)] covers(final(self)@, a) <==> covers(old(self)@, a) && !r.contains(a),
            total(final(self)@) == total(old(self)@) - size,
    {
        let ghost s = self@;
        let n = self.pool.len();
        let e = self.pool[i];
        let rest = e.size - pad - size;
        let b = Block { ptr: e.ptr + pad, size };
        let front = Block { ptr: e.ptr, size: pad };
        let back = Block { ptr: e.ptr + pad + size, size: rest };
        assert forall|a: int| b.contains(a) implies covers(s, a) by {
            assert(s[i as int].contains(a));
        }
        if pad == 0 && rest == 0 {
            self.pool.remove(i);
            proof {
                lemma_total_remove(s, i as int);
                lemma_remove_wf(s, i as int);
                assert forall|a: int| covers(self@, a) <==> covers(s, a) && !b.contains(a) by {
                    lemma_covers_remove(s, i as int, a);
                }
            }
        } else if pad == 0 {
            self.pool.set(i, back);
            proof {
                lemma_total_update(s, i as int, back);
                lemma_update_wf(s, i as int, back);
                assert forall|a: int| covers(self@, a) <==> covers(s, a) && !b.contains(a) by {
                    lemma_covers_update(s, i as int, back, a);
                    if covers(s, a) && !b.contains(a) && s[i as int].contains(a) {
                        assert(back.contains(a));
                    }
                }
            }
        } else if rest == 0 {
            self.pool.set(i, front);
            proof {
                lemma_total_update(s, i as int, front);
                lemma_update_wf(s, i as int, front);
                assert forall|a: int| covers(self@, a) <==> covers(s, a) && !b.contains(a) by {
                    lemma_covers_update(s, i as int, front, a);
                    if front.contains(a) {
                        assert(s[i as int].contains(a));
                    }
                }
            }
        } else {
            self.pool.set(i, front);
            let ghost t = self@;
            self.pool.insert(i + 1, back);
            proof {
                lemma_total_update(s, i as int, front);
                lemma_update_wf(s, i as int, front);
                lemma_total_insert(t, i + 1, back);
                lemma_insert_wf(t, i + 1, back);
                assert forall|a: int| covers(self@, a) <==> covers(s, a) && !b.contains(a) by {
                    lemma_covers_update(s, i as int, front, a);
                    lemma_covers_insert(t, i + 1, back, a);
                    if front.contains(a) || back.contains(a) {
                        assert(s[i as int].contains(a));
                    }
                }
            }
        }
        b
    }

    /// First fit: serve `size` bytes aligned to `align` from the lowest entry
    /// of the free list that can hold them. `None` when no entry can, and then
    /// nothing changes.
    pub fn alloc_first_fit(&mut self, size: usize, align: usize) -> (r: Option<Block>)
        requires
            old(self).wf(),
            size > 0,
            align > 0,
        ensures
            final(self).wf(),
            r is None <==> none_fits(old(self)@, size as int, align as int),
            r is None ==> final(self)@ == old(self)@,
            r matches Some(b) ==> {
                &&& b.wf()
                &&& b.len() == size
                &&& b.start() % (align as int) == 0
                &&& exists|i: int|
                    first_fit(old(self)@, i, size as int, align as int) && b.start() == (
                    #[trigger] old(self)@[i]).start() + pad(old(self)@[i].start(), align as int)
                &&& forall|a: int| b.contains(a) ==> covers(old(self)@, a)
                &&& forall|a: int| #![trigger covers(final(self)@, a)] #![trigger covers(old(self)@, a)] covers(final(self)@, a) <==> covers(old(self)@, a) && !b.contains(a)
                &&& total(final(self)@) == total(old(self)@) - size
            },
    {
        let n = self.pool.len();
        let mut i: usize = 0;
        while i < n
            invariant
                self.wf(),
                self@ == old(self)@,
                n == self@.len(),
                i <= n,
                size > 0,
                align > 0,
                forall|j: int| 0 <= j < i ==> !fits(#[trigger] self@[j], size as int, align as int),
            decreases n - i,
        {
            let e = self.pool[i];
            let skip = pad_of(e.ptr, align);
            if skip <= e.size && size <= e.size - skip {
                let ghost s = self@;
                let b = self.carve(i, skip, size);
                proof {
                    lemma_pad_aligns(s[i as int].start(), align as int);
                    assert(first_fit(s, i as int, size as int, align as int));
                    assert(fits(s[i as int], size as int, align as int));
                    assert(b.start() == s[i as int].start() + pad(s[i as int].start(), align as int));
                    assert(b.start() % (align as int) == 0);
                    assert(exists|k: int|
                        first_fit(s, k, size as int, align as int) && b.start() == (
                        #[trigger] s[k]).start() + pad(s[k].start(), align as int));
                }
                return Some(b);
            }
            i = i + 1;
        }
        None
    }

    /// Allocate `size` bytes aligned to `align`, first fit. A zero-size
    /// request takes nothing from the free list and gets the empty block at
    /// `align`. `None` when no entry of the free list can serve the request,
    /// and then nothing changes.
    pub fn allocate(&mut self, size: usize, align: usize) -> (r: Option<Block>)
        requires
            old(self).wf(),
            align > 0,
        ensures
            final(self).wf(),
            r is None <==> size > 0 && none_fits(old(self)@, size as int, align as int),
            r is None ==> final(self)@ == old(self)@,
            size == 0 ==> final(self)@ == old(self)@ && r == Some(Block { ptr: align, size: 0 }),
            r matches Some(b) ==> {
                &&& b.wf()
                &&& b.len() == size
                &&& b.start() % (align as int) == 0
                &&& size > 0 ==> exists|i: int|
                    first_fit(old(self)@, i, size as int, align as int) && b.start() == (
                    #[trigger] old(self)@[i]).start() + pad(old(self)@[i].start(), align as int)
                &&& forall|a: int| b.contains(a) ==> covers(old(self)@, a)
                &&& forall|a: int| #![trigger covers(final(self)@, a)] #![trigger covers(old(self)@, a)] covers(final(self)@, a) <==> covers(old(self)@, a) && !b.contains(a)
                &&& total(final(self)@) == total(old(self)@) - size
            },
    {
        if size == 0 {
            proof {
                vstd::arithmetic::div_mod::lemma_mod_self_0(align as int);
            }
            Some(Block::empty(align))
        } else {
            self.alloc_first_fit(size, align)
        }
    }

    /// Give a block back to the free list, merged with any adjacent free
    /// space. Freeing an empty block changes nothing. The block must not
    /// overlap free space: it is the caller's, handed out and not yet freed.
    pub fn free(&mut self, b: Block)
        requires
            old(self).wf(),
            b.wf(),
            apart(old(self)@, b),
        ensures
            final(self).wf(),
            b.len() == 0 ==> final(self)@ == old(self)@,
            forall|a: int| #![trigger covers(final(self)@, a)] #![trigger covers(old(self)@, a)] covers(final(self)@, a) <==> covers(old(self)@, a) || b.contains(a),
            total(final(self)@) == total(old(self)@) + b.len(),
            final(self)@.len() == len_after_free(old(self)@, b),
    {
        if b.size > 0 {
            self.insert_free(b);
        }
    }

    /// Resize the block without moving it. Shrinking always succeeds, and the
    /// tail goes back to the free list. Growing succeeds when the free entry
    /// right after the block holds the missing bytes; that entry is then
    /// shrunk or consumed. On failure nothing changes.
    pub fn realloc_inplace(&mut self, b: Block, new_size: usize) -> (r: bool)
        requires
            old(self).wf(),
            b.wf(),
            apart(old(self)@, b),
        ensures
            final(self).wf(),
            r == inplace_possible(old(self)@, b, new_size as int),
            !r ==> final(self)@ == old(self)@,
            r ==> forall|a: int| #![trigger covers(final(self)@, a)] #![trigger covers(old(self)@, a)]
                covers(final(self)@, a) <==> (covers(old(self)@, a) || b.contains(a)) && !(b.start() <= a < b.start() + new_size),
            r ==> total(final(self)@) == total(old(self)@) + b.len() - new_size,
            r && new_size > b.len() ==> exists|i: int|
                0 <= i < old(self)@.len() && (#[trigger] old(self)@[i]).start() == b.end() && final(self)@ == after_extend(
                    old(self)@,
                    i,
                    b,
                    new_size as int,
                ),
            r && new_size <= b.len() ==> final(self)@.len() == len_after_free(
                old(self)@,
                Block { ptr: (b.start() + new_size) as usize, size: (b.len() - new_size) as usize },
            ),
    {
        let ghost s = self@;
        if new_size <= b.size {
            let tail = Block { ptr: b.ptr + new_size, size: b.size - new_size };
            assert forall|i: int| 0 <= i < s.len() implies tail.disjoint(#[trigger] s[i]) by {
                assert(b.disjoint(s[i]));
            }
            if tail.size > 0 {
                self.insert_free(tail);
            }
            assert forall|a: int| covers(self@, a) <==> (covers(s, a) || b.contains(a)) && !(b.start() <= a < b.start() + new_size) by {
                if covers(s, a) {
                    let j = choose|j: int| 0 <= j < s.len() && (#[trigger] s[j]).contains(a);
                    assert(b.disjoint(s[j]));
                }
            }
            true
        } else if b.size == 0 || new_size > usize::MAX - b.ptr {
            false
        } else {
            let end = b.ptr + b.size;
            let extra = new_size - b.size;
            let idx = self.search(end);
            let n = self.pool.len();
            if idx < n && self.pool[idx].ptr == end && self.pool[idx].size >= extra {
                let e = self.pool[idx];
                let taken = Block { ptr: end, size: extra };
                let ghost rest = Block { ptr: (end + extra) as usize, size: (e.size - extra) as usize };
                if e.size == extra {
                    self.pool.remove(idx);
                    proof {
                        lemma_total_remove(s, idx as int);
                        lemma_remove_wf(s, idx as int);
                    }
                } else {
                    let rest_exec = Block { ptr: end + extra, size: e.size - extra };
                    assert(rest_exec == rest);
                    self.pool.set(idx, rest_exec);
                    proof {
                        lemma_total_update(s, idx as int, rest);
                        lemma_update_wf(s, idx as int, rest);
                    }
                }
                assert forall|a: int| covers(self@, a) <==> (covers(s, a) || b.contains(a)) && !(b.start() <= a < b.start() + new_size) by {
                    if e.size == extra {
                        lemma_covers_remove(s, idx as int, a);
                    } else {
                        lemma_covers_update(s, idx as int, rest, a);
                    }
                    if covers(s, a) {
                        let j = choose|j: int| 0 <= j < s.len() && (#[trigger] s[j]).contains(a);
                        assert(b.disjoint(s[j]));
                    }
                    if taken.contains(a) {
                        assert(s[idx as int].contains(a));
                    }
                }
                assert(can_extend(s, b, extra as int)) by {
                    assert(s[idx as int].start() == b.end());
                }
                assert(self@ == after_extend(s, idx as int, b, new_size as int));
                true
            } else {
                assert(!can_extend(s, b, extra as int)) by {
                    if can_extend(s, b, extra as int) {
                        let j = choose|j: int| 0 <= j < s.len() && (#[trigger] s[j]).start() == b.end() && s[j].len() >= extra;
                        if j > idx {
                            assert(s[idx as int].end() < s[j].start());
                        }
                    }
                }
                false
            }
        }
    }

    /// How many bytes to ask of the heap provider when the free list cannot
    /// serve `size` bytes aligned to `align`: enough for the request wherever
    /// the new space starts, plus `GROWTH_SLACK`. `None` when that does not fit
    /// in the address space: the request cannot be met.
    pub fn grow_request(size: usize, align: usize) -> (r: Option<usize>)
        requires
            align > 0,
        ensures
            r == (if needed(size as int, align as int) + GROWTH_SLACK <= usize::MAX {
                Some((needed(size as int, align as int) + GROWTH_SLACK) as usize)
            } else {
                None
            }),
    {
        if size <= usize::MAX - GROWTH_SLACK && align - 1 <= usize::MAX - GROWTH_SLACK - size {
            Some(size + (align - 1) + GROWTH_SLACK)
        } else {
            None
        }
    }

    /// Take in fresh space from the heap provider, merged with any adjacent
    /// free space, and retry the allocation once. Space of at least
    /// `needed(size, align)` bytes always serves the request.
    pub fn allocate_grown(&mut self, size: usize, align: usize, space: Block) -> (r: Block)
        requires
            old(self).wf(),
            align > 0,
            space.wf(),
            apart(old(self)@, space),
            space.len() >= needed(size as int, align as int),
        ensures
            final(self).wf(),
            r.wf(),
            r.len() == size,
            r.start() % (align as int) == 0,
            forall|a: int| r.contains(a) ==> covers(old(self)@, a) || space.contains(a),
            forall|a: int| #![trigger covers(final(self)@, a)] #![trigger covers(old(self)@, a)]
                covers(final(self)@, a) <==> (covers(old(self)@, a) || space.contains(a)) && !r.contains(a),
            total(final(self)@) == total(old(self)@) + space.len() - size,
            size > 0 ==> exists|g: Seq<Block>|
                #[trigger] merged_with(g, old(self)@, space) && first_fit_in(g, r, size as int, align as int),
    {
        self.free(space);
        let ghost g = self@;
        proof {
            if size > 0 {
                lemma_range_in_one_entry(self@, space);
                let s = self@;
                let i = choose|i: int| 0 <= i < s.len() && (#[trigger] s[i]).start() <= space.start() && space.end() <= s[i].end();
                lemma_pad_aligns(s[i].start(), align as int);
                assert(fits(s[i], size as int, align as int));
            }
        }
        let r = self.allocate(size, align);
        proof {
            if size > 0 {
                assert(merged_with(g, old(self)@, space));
                assert(first_fit_in(g, r->Some_0, size as int, align as int));
            }
        }
        r.unwrap()
    }
}

/// Replacing an entry of a well-formed free list by `x` frees what `x` holds
/// and takes back what the old entry held.
proof fn lemma_covers_update(s: Seq<Block>, i: int, x: Block, a: int)
    requires
        pool_wf(s),
        0 <= i < s.len(),
    ensures
        covers(s.update(i, x), a) <==> x.contains(a) || (covers(s, a) && !s[i].contains(a)),
{
    let t = s.update(i, x);
    {
        if covers(t, a) {
            let j = choose|j: int| 0 <= j < t.len() && (#[trigger] t[j]).contains(a);
            if j != i {
                assert(s[j].contains(a));
                if j < i {
                    assert(s[j].end() < s[i].start());
                } else {
                    assert(s[i].end() < s[j].start());
                }
            }
        }
        if x.contains(a) {
            assert(t[i].contains(a));
        }
        if covers(s, a) && !s[i].contains(a) {
            let j = choose|j: int| 0 <= j < s.len() && (#[trigger] s[j]).contains(a);
            assert(t[j].contains(a));
        }
    }
}

proof fn lemma_update_wf(s: Seq<Block>, i: int, x: Block)
    requires
        pool_wf(s),
        0 <= i < s.len(),
        x.wf(),
        x.len() > 0,
        i > 0 ==> s[i - 1].end() < x.start(),
        i + 1 < s.len() ==> x.end() < s[i + 1].start(),
    ensures
        pool_wf(s.update(i, x)),
{
    let t = s.update(i, x);
    assert forall|j: int, k: int| 0 <= j < k < t.len() implies (#[trigger] t[j]).end() < (#[trigger] t[k]).start() by {
        if j == i {
            if k > i + 1 {
                assert(s[i + 1].end() < s[k].start());
            }
        } else if k == i {
            if j < i - 1 {
                assert(s[j].end() < s[i - 1].start());
            }
        } else {
            assert(s[j].end() < s[k].start());
        }
    }
}

proof fn lemma_insert_wf(s: Seq<Block>, i: int, x: Block)
    requires
        pool_wf(s),
        0 <= i <= s.len(),
        x.wf(),
        x.len() > 0,
        i > 0 ==> s[i - 1].end() < x.start(),
        i < s.len() ==> x.end() < s[i].start(),
    ensures
        pool_wf(s.insert(i, x)),
{
    let t = s.insert(i, x);
    assert forall|j: int, k: int| 0 <= j < k < t.len() implies (#[trigger] t[j]).end() < (#[trigger] t[k]).start() by {
        if j == i {
            if k > i + 1 {
                assert(s[i].end() < s[k - 1].start());
            }
        } else if k == i {
            if j < i - 1 {
                assert(s[j].end() < s[i - 1].start());
            }
        } else {
            let jj = if j < i { j } else { j - 1 };
            let kk = if k < i { k } else { k - 1 };
            assert(s[jj].end() < s[kk].start());
        }
    }
}

proof fn lemma_remove_wf(s: Seq<Block>, i: int)
    requires
        pool_wf(s),
        0 <= i < s.len(),
    ensures
        pool_wf(s.remove(i)),
{
    let t = s.remove(i);
    assert forall|j: int, k: int| 0 <= j < k < t.len() implies (#[trigger] t[j]).end() < (#[trigger] t[k]).start() by {
        let jj = if j < i { j } else { j + 1 };
        let kk = if k < i { k } else { k + 1 };
        assert(s[jj].end() < s[kk].start());
    }
}

/// Removing an entry of a well-formed free list takes back what it held.
proof fn lemma_covers_remove(s: Seq<Block>, i: int, a: int)
    requires
        pool_wf(s),
        0 <= i < s.len(),
    ensures
        covers(s.remove(i), a) <==> covers(s, a) && !s[i].contains(a),
{
    let t = s.remove(i);
    {
        if covers(t, a) {
            let j = choose|j: int| 0 <= j < t.len() && (#[trigger] t[j]).contains(a);
            if j < i {
                assert(s[j].contains(a));
                assert(s[j].end() < s[i].start());
            } else {
                assert(s[j + 1].contains(a));
                assert(s[i].end() < s[j + 1].start());
            }
        }
        if covers(s, a) && !s[i].contains(a) {
            let j = choose|j: int| 0 <= j < s.len() && (#[trigger] s[j]).contains(a);
            if j < i {
                assert(t[j].contains(a));
            } else {
                assert(t[j - 1].contains(a));
            }
        }
    }
}

/// Inserting an entry frees what it holds.
proof fn lemma_covers_insert(s: Seq<Block>, i: int, x: Block, a: int)
    requires
        0 <= i <= s.len(),
    ensures
        covers(s.insert(i, x), a) <==> covers(s, a) || x.contains(a),
{
    let t = s.insert(i, x);
    {
        if covers(t, a) {
            let j = choose|j: int| 0 <= j < t.len() && (#[trigger] t[j]).contains(a);
            if j < i {
                assert(s[j].contains(a));
            } else if j > i {
                assert(s[j - 1].contains(a));
            }
        }
        if covers(s, a) {
            let j = choose|j: int| 0 <= j < s.len() && (#[trigger] s[j]).contains(a);
            if j < i {
                assert(t[j].contains(a));
            } else {
                assert(t[j + 1].contains(a));
            }
        }
        if x.contains(a) {
            assert(t[i].contains(a));
        }
    }
}

/// A block is apart from a well-formed free list exactly when none of its
/// bytes is free.
pub proof fn lemma_apart_iff(s: Seq<Block>, h: Block)
    requires
        pool_wf(s),
    ensures
        apart(s, h) <==> forall|a: int| h.contains(a) ==> !covers(s, a),
{
    if apart(s, h) {
        assert forall|a: int| h.contains(a) implies !covers(s, a) by {
            if covers(s, a) {
                let j = choose|j: int| 0 <= j < s.len() && (#[trigger] s[j]).contains(a);
                assert(h.disjoint(s[j]));
            }
        }
    }
    if forall|a: int| h.contains(a) ==> !covers(s, a) {
        assert forall|i: int| 0 <= i < s.len() implies h.disjoint(#[trigger] s[i]) by {
            if !h.disjoint(s[i]) {
                let a = if h.start() < s[i].start() { s[i].start() } else { h.start() };
                assert(s[i].contains(a));
                assert(h.contains(a));
            }
        }
    }
}

/// No overlap. A block held by a caller is apart from the free list, and an
/// allocation is carved out of free bytes only. So the new block shares no
/// byte with any block still held, and after the allocation both the held
/// block and the new one are apart from the free list: the live blocks stay
/// pairwise disjoint whatever the order of allocations.
pub proof fn lemma_no_overlap(before: Seq<Block>, after: Seq<Block>, held: Block, b: Block)
    requires
        pool_wf(before),
        pool_wf(after),
        apart(before, held),
        forall|a: int| b.contains(a) ==> covers(before, a),
        forall|a: int| #![trigger covers(after, a)] covers(after, a) <==> covers(before, a) && !b.contains(a),
    ensures
        b.disjoint(held),
        apart(after, held),
        apart(after, b),
{
    lemma_apart_iff(before, held);
    lemma_apart_iff(after, held);
    lemma_apart_iff(after, b);
    if !b.disjoint(held) {
        let a = if b.start() < held.start() { held.start() } else { b.start() };
        assert(b.contains(a) && held.contains(a));
    }
}

/// No overlap, on release: freeing a block gives back its bytes only, so every
/// other held block, disjoint from it, stays apart from the free list.
pub proof fn lemma_free_keeps_held_apart(before: Seq<Block>, after: Seq<Block>, held: Block, b: Block)
    requires
        pool_wf(before),
        pool_wf(after),
        apart(before, held),
        held.disjoint(b),
        forall|a: int| #![trigger covers(after, a)] covers(after, a) <==> covers(before, a) || b.contains(a),
    ensures
        apart(after, held),
{
    lemma_apart_iff(before, held);
    lemma_apart_iff(after, held);
}

/// Coalescing: in a well-formed free list no two entries overlap or are
/// adjacent. Every operation of the bookkeeper, `free` among them, keeps the
/// free list well formed.
pub proof fn lemma_coalesced(s: Seq<Block>)
    requires
        pool_wf(s),
    ensures
        forall|i: int, j: int|
            0 <= i < s.len() && 0 <= j < s.len() && i != j ==> !(#[trigger] s[i]).adjacent_to(#[trigger] s[j])
                && s[i].disjoint(s[j]),
{
    assert forall|i: int, j: int| 0 <= i < s.len() && 0 <= j < s.len() && i != j implies !(#[trigger] s[i]).adjacent_to(#[trigger] s[j])
        && s[i].disjoint(s[j]) by {
        if i < j {
            assert(s[i].end() < s[j].start());
        } else {
            assert(s[j].end() < s[i].start());
        }
    }
}

/// A well-formed free list is determined by the set of free bytes.
pub proof fn lemma_canonical(s: Seq<Block>, t: Seq<Block>)
    requires
        pool_wf(s),
        pool_wf(t),
        forall|a: int| #![trigger covers(s, a)] #![trigger covers(t, a)] covers(s, a) <==> covers(t, a),
    ensures
        s == t,
    decreases s.len() + t.len(),
{
    if s.len() == 0 && t.len() > 0 {
        assert(t[0].contains(t[0].start()));
        assert(covers(t, t[0].start()));
    } else if t.len() == 0 && s.len() > 0 {
        assert(s[0].contains(s[0].start()));
        assert(covers(s, s[0].start()));
    } else if s.len() > 0 {
        lemma_first_entry(s, t);
        lemma_first_entry(t, s);
        assert(s[0] == t[0]);
        let s1 = s.drop_first();
        let t1 = t.drop_first();
        assert(pool_wf(s1)) by {
            assert forall|i: int, j: int| 0 <= i < j < s1.len() implies (#[trigger] s1[i]).end() < (#[trigger] s1[j]).start() by {
                assert(s[i + 1].end() < s[j + 1].start());
            }
        }
        assert(pool_wf(t1)) by {
            assert forall|i: int, j: int| 0 <= i < j < t1.len() implies (#[trigger] t1[i]).end() < (#[trigger] t1[j]).start() by {
                assert(t[i + 1].end() < t[j + 1].start());
            }
        }
        assert forall|a: int| #![trigger covers(s1, a)] #![trigger covers(t1, a)] covers(s1, a) <==> covers(t1, a) by {
            lemma_rest_covers(s, a);
            lemma_rest_covers(t, a);
        }
        lemma_canonical(s1, t1);
        assert(s =~= seq![s[0]] + s1);
        assert(t =~= seq![t[0]] + t1);
    }
}

/// Past the first entry, a free address is free in the rest of the list.
proof fn lemma_rest_covers(s: Seq<Block>, a: int)
    requires
        pool_wf(s),
        s.len() > 0,
    ensures
        covers(s.drop_first(), a) <==> covers(s, a) && !s[0].contains(a),
{
    let r = s.drop_first();
    if covers(r, a) {
        let j = choose|j: int| 0 <= j < r.len() && (#[trigger] r[j]).contains(a);
        assert(s[j + 1].contains(a));
        assert(s[0].end() < s[j + 1].start());
    }
    if covers(s, a) && !s[0].contains(a) {
        let j = choose|j: int| 0 <= j < s.len() && (#[trigger] s[j]).contains(a);
        assert(r[j - 1].contains(a));
    }
}

/// With the same free bytes, the first entry of `s` starts where that of `t`
/// does and ends no later.
proof fn lemma_first_entry(s: Seq<Block>, t: Seq<Block>)
    requires
        pool_wf(s),
        pool_wf(t),
        s.len() > 0,
        t.len() > 0,
        forall|a: int| #![trigger covers(s, a)] #![trigger covers(t, a)] covers(s, a) <==> covers(t, a),
    ensures
        s[0].start() == t[0].start(),
        s[0].end() <= t[0].end(),
{
    assert(t[0].contains(t[0].start()));
    assert(covers(t, t[0].start()));
    assert(s[0].contains(s[0].start()));
    assert(covers(s, s[0].start()));
    let i = choose|i: int| 0 <= i < s.len() && (#[trigger] s[i]).contains(t[0].start());
    let j = choose|j: int| 0 <= j < t.len() && (#[trigger] t[j]).contains(s[0].start());
    if i > 0 {
        assert(s[0].end() < s[i].start());
    }
    if j > 0 {
        assert(t[0].end() < t[j].start());
    }
    if s[0].end() > t[0].end() {
        let a = t[0].end();
        assert(s[0].contains(a));
        assert(covers(s, a));
        let k = choose|k: int| 0 <= k < t.len() && (#[trigger] t[k]).contains(a);
        if k > 0 {
            assert(t[0].end() < t[k].start());
        }
    }
}

/// Round trip: allocating a block and freeing it right after, with the same
/// size, gives back the very free list that was there before the allocation,
/// and so the same total of free bytes.
pub proof fn lemma_round_trip(s0: Seq<Block>, s1: Seq<Block>, s2: Seq<Block>, b: Block)
    requires
        pool_wf(s0),
        pool_wf(s1),
        pool_wf(s2),
        forall|a: int| b.contains(a) ==> covers(s0, a),
        forall|a: int| #![trigger covers(s1, a)] covers(s1, a) <==> covers(s0, a) && !b.contains(a),
        forall|a: int| #![trigger covers(s2, a)] covers(s2, a) <==> covers(s1, a) || b.contains(a),
    ensures
        s2 == s0,
        total(s2) == total(s0),
{
    assert forall|a: int| #![trigger covers(s0, a)] #![trigger covers(s2, a)] covers(s0, a) <==> covers(s2, a) by {
        if covers(s0, a) && !b.contains(a) {
            assert(covers(s1, a));
        }
    }
    lemma_canonical(s0, s2);
}

/// Reuse without growth: a block that first fit carved out of a free list,
/// freed right away, leaves that very list again; the same request then
/// fits without growing the heap, and first fit serves it at the same address.
pub proof fn lemma_reuse_after_free(g: Seq<Block>, s1: Seq<Block>, s2: Seq<Block>, r: Block, size: int, align: int)
    requires
        pool_wf(g),
        pool_wf(s1),
        pool_wf(s2),
        size > 0,
        align > 0,
        r.len() == size,
        first_fit_in(g, r, size, align),
        forall|a: int| #![trigger covers(s1, a)] covers(s1, a) <==> covers(g, a) && !r.contains(a),
        forall|a: int| #![trigger covers(s2, a)] covers(s2, a) <==> covers(s1, a) || r.contains(a),
    ensures
        s2 == g,
        !none_fits(s2, size, align),
        forall|r2: Block| first_fit_in(s2, r2, size, align) ==> r2.start() == r.start(),
{
    let i = choose|i: int| first_fit(g, i, size, align) && r.start() == (#[trigger] g[i]).start() + pad(g[i].start(), align);
    lemma_pad_aligns(g[i].start(), align);
    assert forall|a: int| r.contains(a) implies covers(g, a) by {
        assert(g[i].contains(a));
    }
    lemma_round_trip(g, s1, s2, r);
    assert(fits(s2[i], size, align));
    assert forall|r2: Block| first_fit_in(s2, r2, size, align) implies r2.start() == r.start() by {
        let k = choose|k: int| first_fit(s2, k, size, align) && r2.start() == (#[trigger] s2[k]).start() + pad(s2[k].start(), align);
        if k < i {
            assert(!fits(g[k], size, align));
        } else if k > i {
            assert(!fits(s2[i], size, align));
        }
    }
}

} // verus!
