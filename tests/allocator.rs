use ralloc::{Allocator, Block, Bookkeeper, Writer};

fn grown(a: &mut Allocator, base: usize, size: usize, align: usize) -> (Block, usize) {
    assert!(a.allocate(size, align).is_none());
    let n = Allocator::grow_request(size, align).unwrap();
    let space = Block::from_raw_parts(base, n);
    (a.allocate_grown(size, align, space), n)
}

fn free_total(a: &Allocator) -> usize {
    let mut t = 0;
    for i in 0..a.free_entries() {
        t += a.free_entry(i).size();
    }
    t
}

fn entries(a: &Allocator) -> Vec<(usize, usize)> {
    (0..a.free_entries()).map(|i| (a.free_entry(i).ptr(), a.free_entry(i).size())).collect()
}

#[test]
fn reuse_after_free_without_growth() {
    let mut a = Allocator::new();
    let (b, n) = grown(&mut a, 4096, 16, 8);
    assert!(b.size() >= 16);
    assert_eq!(b.ptr() % 8, 0);
    a.free(b);
    assert_eq!(free_total(&a), n);
    let again = a.allocate(16, 8).expect("served from the free list");
    assert_eq!(again.ptr(), b.ptr());
    assert_eq!(again.size(), 16);
}

#[test]
fn grow_request_adds_slack() {
    assert_eq!(Allocator::grow_request(16, 8), Some(16 + 7 + 4096));
    assert_eq!(Allocator::grow_request(usize::MAX - 10, 8), None);
}

#[test]
fn leak_check_counts_outstanding() {
    let mut a = Allocator::new();
    let (first, _) = grown(&mut a, 8192, 32, 8);
    let mut blocks = vec![first];
    for _ in 0..4 {
        blocks.push(a.allocate(32, 8).unwrap());
    }
    assert_eq!(a.leak_count(), 5);
    let last = blocks.pop().unwrap();
    for b in blocks {
        a.free(b);
    }
    assert_eq!(a.leak_count(), 1);
    assert!(!a.debug_assert_no_leak());
    a.free(last);
    assert_eq!(a.leak_count(), 0);
    assert!(a.debug_assert_no_leak());
}

#[test]
fn round_trip_restores_free_list() {
    let mut a = Allocator::new();
    let (b, _) = grown(&mut a, 1000, 100, 16);
    a.free(b);
    let before = entries(&a);
    let c = a.allocate(40, 64).unwrap();
    assert_eq!(c.ptr() % 64, 0);
    a.free(c);
    assert_eq!(entries(&a), before);
}

#[test]
fn frees_coalesce_in_any_order() {
    let mut k = Bookkeeper::new();
    let x = Block::from_raw_parts(100, 10);
    let y = Block::from_raw_parts(110, 10);
    let z = Block::from_raw_parts(120, 10);
    k.free(z);
    k.free(x);
    assert_eq!(k.len(), 2);
    k.free(y);
    assert_eq!(k.len(), 1);
    assert_eq!(k.entry(0), Block::from_raw_parts(100, 30));
}

#[test]
fn free_keeps_gaps_apart() {
    let mut k = Bookkeeper::new();
    k.free(Block::from_raw_parts(200, 10));
    k.free(Block::from_raw_parts(100, 10));
    k.free(Block::from_raw_parts(150, 10));
    assert_eq!(k.len(), 3);
    assert_eq!(k.entry(0).ptr(), 100);
    assert_eq!(k.entry(1).ptr(), 150);
    assert_eq!(k.entry(2).ptr(), 200);
    k.free(Block::from_raw_parts(160, 40));
    assert_eq!(k.len(), 2);
    assert_eq!(k.entry(1), Block::from_raw_parts(150, 60));
}

#[test]
fn zero_size_allocation() {
    let mut a = Allocator::new();
    let b = a.allocate(0, 16).unwrap();
    assert_eq!(b.size(), 0);
    assert!(b.is_empty());
    assert_eq!(b.ptr(), 16);
    a.free(b);
    assert_eq!(a.free_entries(), 0);
}

#[test]
fn alignment_padding_stays_free() {
    let mut k = Bookkeeper::new();
    k.free(Block::from_raw_parts(4097, 200));
    let b = k.allocate(10, 64).unwrap();
    assert_eq!(b, Block::from_raw_parts(4160, 10));
    assert_eq!(k.len(), 2);
    assert_eq!(k.entry(0), Block::from_raw_parts(4097, 63));
    assert_eq!(k.entry(1), Block::from_raw_parts(4170, 127));
}

#[test]
fn first_fit_takes_lowest_entry() {
    let mut k = Bookkeeper::new();
    k.free(Block::from_raw_parts(300, 64));
    k.free(Block::from_raw_parts(100, 8));
    k.free(Block::from_raw_parts(200, 64));
    let b = k.allocate(16, 8).unwrap();
    assert_eq!(b.ptr(), 200);
    assert!(k.allocate(100, 8).is_none());
    assert_eq!(k.len(), 3);
}

#[test]
fn inplace_failure_changes_nothing() {
    let mut a = Allocator::new();
    let (b, _) = grown(&mut a, 4096, 64, 8);
    let c = a.allocate(64, 8).unwrap();
    let before = entries(&a);
    assert!(!a.realloc_inplace(b, 128));
    assert_eq!(entries(&a), before);
    assert_eq!(a.leak_count(), 2);
    a.free(c);
}

#[test]
fn inplace_grow_and_shrink() {
    let mut a = Allocator::new();
    let (b, n) = grown(&mut a, 4096, 64, 8);
    assert!(a.realloc_inplace(b, 100));
    assert_eq!(free_total(&a), n - 100);
    let b = Block::from_raw_parts(b.ptr(), 100);
    assert!(a.realloc_inplace(b, 20));
    assert_eq!(free_total(&a), n - 20);
    assert_eq!(a.free_entries(), 1);
    assert_eq!(a.free_entry(0).ptr(), 4096 + 20);
}

#[test]
fn inplace_grow_from_empty_fails() {
    let mut a = Allocator::new();
    let (b, _) = grown(&mut a, 4096, 64, 8);
    a.free(b);
    let e = Block::empty(4096);
    assert!(!a.realloc_inplace(e, 8));
}

#[test]
fn realloc_moves_when_blocked() {
    let mut a = Allocator::new();
    let (b, _) = grown(&mut a, 4096, 32, 8);
    let wall = a.allocate(8, 8).unwrap();
    let nb = a.realloc(b, 64, 8).unwrap();
    assert_ne!(nb.ptr(), b.ptr());
    assert!(nb.size() >= b.size());
    assert!(nb.ptr() >= b.ptr() + b.size() || nb.ptr() + nb.size() <= b.ptr());
    assert_eq!(a.leak_count(), 3);
    a.free(b);
    a.free(wall);
    a.free(nb);
    assert_eq!(a.leak_count(), 0);
    assert_eq!(a.free_entries(), 1);
}

#[test]
fn realloc_in_place_keeps_address() {
    let mut a = Allocator::new();
    let (b, _) = grown(&mut a, 4096, 32, 8);
    let nb = a.realloc(b, 64, 8).unwrap();
    assert_eq!(nb, Block::from_raw_parts(4096, 64));
}

#[test]
fn live_blocks_never_overlap() {
    let mut a = Allocator::new();
    let (first, _) = grown(&mut a, 65536, 24, 16);
    let mut live = vec![first];
    for (i, size) in [1usize, 7, 33, 64, 5, 100].iter().enumerate() {
        let b = a.allocate(*size, 1 << (i % 4)).unwrap();
        live.push(b);
    }
    let gone = live.remove(2);
    a.free(gone);
    live.push(a.allocate(16, 8).unwrap());
    for i in 0..live.len() {
        for j in 0..live.len() {
            if i != j {
                let (x, y) = (live[i], live[j]);
                assert!(x.ptr() + x.size() <= y.ptr() || y.ptr() + y.size() <= x.ptr());
            }
        }
    }
}

#[test]
fn free_plus_outstanding_is_obtained() {
    let mut a = Allocator::new();
    let (first, n1) = grown(&mut a, 4096, 1000, 8);
    let (second, n2) = grown(&mut a, 1 << 20, 8000, 8);
    let third = a.allocate(200, 32).unwrap();
    assert!(a.realloc_inplace(third, 150));
    let third = Block::from_raw_parts(third.ptr(), 150);
    a.free(first);
    let outstanding = second.size() + third.size();
    assert_eq!(free_total(&a) + outstanding, n1 + n2);
}

#[test]
fn stderr_writer_descriptor() {
    assert_eq!(Writer::stderr().fd(), 2);
}

#[test]
fn block_adjacency() {
    let x = Block::from_raw_parts(10, 5);
    let y = Block::from_raw_parts(15, 1);
    assert!(x.is_adjacent_to(&y));
    assert!(!y.is_adjacent_to(&x));
    assert_eq!(x.end_addr(), 15);
}

#[test]
fn double_free_is_detected() {
    let mut a = Allocator::new();
    let (b, _) = grown(&mut a, 4096, 64, 8);
    assert!(a.is_apart(b));
    a.free(b);
    assert!(!a.is_apart(b));
    assert!(a.is_apart(Block::empty(8)));
    assert!(!a.is_apart(Block::from_raw_parts(4000, 100)));
    assert!(a.is_apart(Block::from_raw_parts(4000, 96)));
}

#[test]
fn zero_size_is_not_a_leak() {
    let mut a = Allocator::new();
    let z = a.allocate(0, 8).unwrap();
    assert_eq!(z, Block::empty(8));
    assert_eq!(a.leak_count(), 0);
    assert!(a.debug_assert_no_leak());
    let (b, _) = grown(&mut a, 4096, 16, 8);
    assert_eq!(a.leak_count(), 1);
    assert!(a.realloc_inplace(b, 0));
    assert_eq!(a.leak_count(), 0);
}

#[test]
fn free_merges_on_both_sides() {
    let mut a = Allocator::new();
    let (x, n) = grown(&mut a, 4096, 16, 8);
    let y = a.allocate(16, 8).unwrap();
    let z = a.allocate(16, 8).unwrap();
    assert_eq!(a.free_entries(), 1);
    a.free(x);
    assert_eq!(a.free_entries(), 2);
    a.free(z);
    assert_eq!(a.free_entries(), 2);
    a.free(y);
    assert_eq!(a.free_entries(), 1);
    assert_eq!(a.free_entry(0), Block::from_raw_parts(4096, n));
    a.free(Block::empty(8));
    assert_eq!(a.free_entries(), 1);
}
