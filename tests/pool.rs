use blockpool::harness::{Allocation, CheckError, Outcome, Step};
use blockpool::pool::{
    AllocError, ConstructionError, DefragError, EntryState, LockError, Pool, SliceHandle,
    BLOCK_SIZE,
};

fn pool_of(blocks: usize, indexes: u16, cache: u16) -> Pool {
    Pool::new(blocks * BLOCK_SIZE, indexes, cache).ok().unwrap()
}

fn write_all(pool: &mut Pool, h: &SliceHandle, values: &[u32]) {
    let g = pool.lock(h).ok().unwrap();
    for (i, v) in values.iter().enumerate() {
        pool.set(&g, i as u16, *v).unwrap();
    }
    pool.unlock(g).unwrap();
}

fn read_all(pool: &mut Pool, h: &SliceHandle) -> Vec<u32> {
    let g = pool.lock(h).ok().unwrap();
    let v = pool.to_vec(&g).ok().unwrap();
    pool.unlock(g).unwrap();
    v
}

fn span(pool: &Pool, h: &SliceHandle) -> (u16, u16) {
    let e = pool.entry(h.index()).unwrap();
    assert_eq!(e.state, EntryState::Allocated);
    (e.start, e.blocks)
}

fn allocated_blocks(pool: &Pool) -> usize {
    (0..pool.len_indexes())
        .map(|i| pool.entry(i).unwrap())
        .filter(|e| e.state == EntryState::Allocated)
        .map(|e| e.blocks as usize)
        .sum()
}

#[test]
fn construction_errors() {
    assert!(matches!(Pool::new(17, 4, 1), Err(ConstructionError::NotBlockMultiple)));
    assert!(matches!(Pool::new(65536 * 16, 4, 1), Err(ConstructionError::TooManyBlocks)));
    assert!(matches!(Pool::new(64, 4, 5), Err(ConstructionError::CacheTooLarge)));
    let p = Pool::new(65535 * 16, 4, 4).ok().unwrap();
    assert_eq!(p.size(), 65535 * 16);
}

#[test]
fn construction_sizes() {
    let p = pool_of(32767, 512, 51);
    assert_eq!(p.size(), 32767 * 16);
    assert_eq!(p.len_indexes(), 512);
    assert_eq!(p.free_blocks(), 32767);
    let empty = Pool::new(0, 0, 0).ok().unwrap();
    assert_eq!(empty.size(), 0);
    assert_eq!(empty.len_indexes(), 0);
}

#[test]
fn block_counts() {
    assert_eq!(Pool::blocks_needed(0), 0);
    assert_eq!(Pool::blocks_needed(1), 1);
    assert_eq!(Pool::blocks_needed(4), 1);
    assert_eq!(Pool::blocks_needed(5), 2);
    assert_eq!(Pool::blocks_needed(100), 25);
    assert_eq!(Pool::blocks_needed(65535), 16384);
}

#[test]
fn first_fit_and_exact_span() {
    let mut p = pool_of(16, 8, 2);
    let a = p.alloc_slice(5).ok().unwrap();
    let b = p.alloc_slice(4).ok().unwrap();
    assert_eq!(a.len(), 5);
    assert_eq!(span(&p, &a), (0, 2));
    assert_eq!(span(&p, &b), (2, 1));
    // the highest free slot takes each allocation
    assert_eq!(a.index(), 7);
    assert_eq!(b.index(), 6);
    assert_eq!(p.free_blocks(), 13);
    assert!(p.release(a));
    let c = p.alloc_slice(4).ok().unwrap();
    assert_eq!(span(&p, &c), (0, 1));
}

#[test]
fn zero_length_allocation() {
    let mut p = pool_of(4, 2, 1);
    let h = p.alloc_slice(0).ok().unwrap();
    assert_eq!(h.len(), 0);
    assert_eq!(p.free_blocks(), 4);
    assert_eq!(read_all(&mut p, &h), Vec::<u32>::new());
}

#[test]
fn exhausted_index_table() {
    let mut p = pool_of(16, 2, 1);
    let _a = p.alloc_slice(4).ok().unwrap();
    let _b = p.alloc_slice(4).ok().unwrap();
    assert!(matches!(p.alloc_slice(4), Err(AllocError::NoFreeIndexSlot)));
    assert_eq!(p.free_blocks(), 14);
}

#[test]
fn out_of_memory_then_reuse_freed_span() {
    let mut p = pool_of(32767, 512, 51);
    let first = p.alloc_slice(100).ok().unwrap();
    assert_eq!(span(&p, &first), (0, 25));
    assert_eq!(first.len(), 100);
    let _big = p.alloc_slice(65532).ok().unwrap();
    let _rest = p.alloc_slice(16359 * 4).ok().unwrap();
    assert_eq!(p.free_blocks(), 0);
    assert!(matches!(p.alloc_slice(100), Err(AllocError::OutOfMemory)));
    assert!(matches!(p.alloc_slice_fast(100), Err(AllocError::OutOfMemory)));
    assert!(p.release(first));
    assert_eq!(p.free_blocks(), 25);
    let again = p.alloc_slice(100).ok().unwrap();
    assert_eq!(span(&p, &again), (0, 25));
}

#[test]
fn fragmented_then_defrag_succeeds() {
    let mut p = pool_of(64, 64, 8);
    let mut hs: Vec<SliceHandle> = Vec::new();
    for i in 0..64u32 {
        let h = p.alloc_slice(4).ok().unwrap();
        write_all(&mut p, &h, &[i, i + 100, i + 200, i + 300]);
        hs.push(h);
    }
    assert!(matches!(p.alloc_slice(4), Err(AllocError::OutOfMemory)));
    let mut kept: Vec<(SliceHandle, u32)> = Vec::new();
    for (i, h) in hs.into_iter().enumerate() {
        if i % 2 == 0 {
            assert!(p.release(h));
        } else {
            kept.push((h, i as u32));
        }
    }
    assert_eq!(p.free_blocks(), 32);
    assert!(matches!(p.alloc_slice(8), Err(AllocError::Fragmented)));
    assert!(p.defrag().is_ok());
    let retried = p.alloc_slice(8).ok().unwrap();
    assert_eq!(span(&p, &retried), (32, 2));
    assert!(p.release(retried));
    assert_eq!(p.free_blocks(), 32);
    for (h, i) in kept.iter() {
        assert_eq!(read_all(&mut p, h), vec![*i, i + 100, i + 200, i + 300]);
    }
    let big = p.alloc_slice_fast(8).ok().unwrap();
    assert_eq!(span(&p, &big), (32, 2));
    let fast = p.alloc_slice_fast(4 * 30).ok().unwrap();
    assert_eq!(span(&p, &fast), (34, 30));
    assert!(matches!(p.alloc_slice(4), Err(AllocError::OutOfMemory)));
}

#[test]
fn fast_path_misses_what_exhaustive_finds() {
    let mut p = pool_of(64, 8, 1);
    let a = p.alloc_slice_fast(4).ok().unwrap();
    assert_eq!(span(&p, &a), (0, 1));
    assert_eq!(p.entry(0).unwrap().start, 1);
    assert_eq!(p.entry(0).unwrap().blocks, 63);
    // the exhaustive path takes block 1, leaving the cached hint stale
    let b = p.alloc_slice(4).ok().unwrap();
    assert_eq!(span(&p, &b), (1, 1));
    assert!(matches!(p.alloc_slice_fast(4), Err(AllocError::Fragmented)));
    let c = p.alloc_slice(4).ok().unwrap();
    assert_eq!(span(&p, &c), (2, 1));
}

#[test]
fn clean_coalesces_adjacent_free_runs() {
    let mut p = pool_of(16, 8, 8);
    let h0 = p.alloc_slice(4).ok().unwrap();
    let h1 = p.alloc_slice(4).ok().unwrap();
    let h2 = p.alloc_slice(4).ok().unwrap();
    let h3 = p.alloc_slice(4).ok().unwrap();
    assert_eq!(span(&p, &h3), (3, 1));
    assert!(p.release(h1));
    assert!(p.release(h2));
    // hints: (0, 16) is stale, the two freed runs hold one block each
    assert!(matches!(p.alloc_slice_fast(8), Err(AllocError::Fragmented)));
    p.clean();
    let e0 = p.entry(0).unwrap();
    assert_eq!((e0.state, e0.start, e0.blocks), (EntryState::Free, 1, 2));
    let merged = p.alloc_slice_fast(8).ok().unwrap();
    assert_eq!(span(&p, &merged), (1, 2));
    assert_eq!(span(&p, &h0), (0, 1));
}

#[test]
fn round_trip_through_clean_and_defrag() {
    let mut p = pool_of(32, 8, 4);
    let gap = p.alloc_slice(16).ok().unwrap();
    let h = p.alloc_slice(7).ok().unwrap();
    let values = vec![7, 1, 4, 0xffff_ffff, 0, 9, 3];
    write_all(&mut p, &h, &values);
    assert_eq!(read_all(&mut p, &h), values);
    p.clean();
    assert_eq!(read_all(&mut p, &h), values);
    assert!(p.release(gap));
    assert_eq!(span(&p, &h), (4, 2));
    let occ = p.occupancy();
    assert_eq!(occ.len(), 32);
    assert_eq!(occ[3], None);
    assert_eq!(occ[4], Some(h.index()));
    assert_eq!(occ[5], Some(h.index()));
    assert_eq!(occ[6], None);
    assert!(p.defrag().is_ok());
    assert_eq!(span(&p, &h), (0, 2));
    assert_eq!(read_all(&mut p, &h), values);
}

#[test]
fn lock_errors() {
    let mut p = pool_of(8, 4, 2);
    let h = p.alloc_slice(3).ok().unwrap();
    let g = p.lock(&h).ok().unwrap();
    assert!(matches!(p.lock(&h), Err(LockError::AlreadyLocked)));
    assert!(matches!(p.get(&g, 3), Err(LockError::OutOfBounds)));
    assert!(matches!(p.set(&g, 3, 1), Err(LockError::OutOfBounds)));
    assert!(matches!(p.defrag(), Err(DefragError::GuardHeld)));
    p.set(&g, 2, 42).unwrap();
    assert_eq!(p.get(&g, 2).ok(), Some(42));
    let g2 = p.lock(&h);
    assert!(g2.is_err());
    p.unlock(g).unwrap();
    let g3 = p.lock(&h).ok().unwrap();
    assert_eq!(g3.len(), 3);
    p.unlock(g3).unwrap();
    assert!(p.defrag().is_ok());
    let other = p.alloc_slice(1).ok().unwrap();
    assert!(p.release(h));
    assert!(matches!(p.lock(&other), Ok(_)));
}

#[test]
fn release_frees_exactly_its_span() {
    let mut p = pool_of(16, 8, 2);
    let a = p.alloc_slice(8).ok().unwrap();
    let b = p.alloc_slice(12).ok().unwrap();
    let c = p.alloc_slice(4).ok().unwrap();
    write_all(&mut p, &a, &[1; 8]);
    write_all(&mut p, &c, &[3; 4]);
    let before = p.free_blocks();
    let (bs, bl) = span(&p, &b);
    assert!(p.release(b));
    assert_eq!(p.free_blocks(), before + bl);
    assert_eq!((bs, bl), (2, 3));
    assert_eq!(read_all(&mut p, &a), vec![1; 8]);
    assert_eq!(read_all(&mut p, &c), vec![3; 4]);
    assert_eq!(span(&p, &a), (0, 2));
    assert_eq!(span(&p, &c), (5, 1));
}

#[test]
fn conservation_and_disjointness() {
    let mut p = pool_of(128, 32, 4);
    let mut hs: Vec<SliceHandle> = Vec::new();
    for len in [3u16, 17, 0, 40, 9, 1, 64, 22, 5] {
        hs.push(p.alloc_slice(len).ok().unwrap());
        assert_eq!(allocated_blocks(&p) + p.free_blocks() as usize, 128);
    }
    let h = hs.remove(3);
    assert!(p.release(h));
    assert_eq!(allocated_blocks(&p) + p.free_blocks() as usize, 128);
    p.clean();
    assert_eq!(allocated_blocks(&p) + p.free_blocks() as usize, 128);
    assert!(p.defrag().is_ok());
    assert_eq!(allocated_blocks(&p) + p.free_blocks() as usize, 128);
    for (i, x) in hs.iter().enumerate() {
        for y in hs.iter().skip(i + 1) {
            let (xs, xl) = span(&p, x);
            let (ys, yl) = span(&p, y);
            assert!(xl == 0 || yl == 0 || xs + xl <= ys || ys + yl <= xs);
        }
    }
}

#[test]
fn allocation_check_reports_mismatch() {
    let mut p = pool_of(16, 4, 2);
    let mut a = Allocation::new();
    assert!(a.assert_valid(&mut p).is_ok());
    let out = a.do_random(&mut p, Step::Alloc(3, vec![5, 6, 7])).unwrap();
    assert_eq!(out, Outcome::Allocated);
    assert!(a.assert_valid(&mut p).is_ok());
    assert_eq!(a.data, vec![5, 6, 7]);
    a.data[1] = 0;
    assert!(matches!(
        a.assert_valid(&mut p),
        Err(CheckError::Value { index: 1, expected: 0, found: 6 })
    ));
    a.data.push(1);
    assert!(matches!(
        a.assert_valid(&mut p),
        Err(CheckError::Length { expected_len: 4, found_len: 3 })
    ));
}

#[test]
fn allocation_steps() {
    let mut p = pool_of(8, 4, 2);
    let mut a = Allocation::new();
    assert_eq!(a.do_random(&mut p, Step::Deallocate).unwrap(), Outcome::Skipped);
    assert_eq!(a.do_random(&mut p, Step::Alloc(40, vec![1; 40])).unwrap(), Outcome::OutOfMemory);
    assert!(a.handle.is_none());
    assert_eq!(a.do_random(&mut p, Step::AllocFast(4, vec![9, 8, 7, 6])).unwrap(), Outcome::Allocated);
    assert_eq!(a.do_random(&mut p, Step::Change(vec![1, 2, 3, 4])).unwrap(), Outcome::Changed);
    assert_eq!(a.do_random(&mut p, Step::Clean).unwrap(), Outcome::Cleaned);
    assert_eq!(a.data, vec![1, 2, 3, 4]);
    // fewer values than elements: only the overlap is written
    assert_eq!(a.do_random(&mut p, Step::Change(vec![5])).unwrap(), Outcome::Changed);
    assert_eq!(a.data, vec![5, 2, 3, 4]);
    assert_eq!(a.do_random(&mut p, Step::Change(vec![6, 7, 8, 9, 10, 11])).unwrap(), Outcome::Changed);
    assert_eq!(a.data, vec![6, 7, 8, 9]);
    assert_eq!(a.do_random(&mut p, Step::Deallocate).unwrap(), Outcome::Freed);
    assert!(a.handle.is_none());
    assert_eq!(p.free_blocks(), 8);
}

#[test]
fn allocation_pads_short_values_with_zeros() {
    let mut p = pool_of(8, 4, 2);
    let mut a = Allocation::new();
    assert_eq!(a.allocate(&mut p, 5, false, &vec![3, 4]).unwrap(), Outcome::Allocated);
    assert_eq!(a.data, vec![3, 4, 0, 0, 0]);
    assert!(a.assert_valid(&mut p).is_ok());
    let mut b = Allocation::new();
    assert!(matches!(
        b.allocate(&mut p, 40, true, &vec![]),
        Ok(Outcome::OutOfMemory)
    ));
    assert!(b.handle.is_none());
}

#[test]
fn allocation_reports_full_table() {
    let mut p = pool_of(8, 1, 1);
    let mut a = Allocation::new();
    assert_eq!(a.do_random(&mut p, Step::Alloc(1, vec![1])).unwrap(), Outcome::Allocated);
    let mut b = Allocation::new();
    assert!(matches!(
        b.do_random(&mut p, Step::Alloc(1, vec![2])),
        Err(CheckError::Alloc(AllocError::NoFreeIndexSlot))
    ));
    assert!(b.handle.is_none());
}

#[test]
fn allocation_defrags_on_fragmentation() {
    let mut p = pool_of(4, 8, 1);
    let hs: Vec<SliceHandle> = (0..4).map(|_| p.alloc_slice(4).ok().unwrap()).collect();
    let mut it = hs.into_iter();
    let h0 = it.next().unwrap();
    let _h1 = it.next().unwrap();
    let h2 = it.next().unwrap();
    let _h3 = it.next().unwrap();
    assert!(p.release(h0));
    assert!(p.release(h2));
    let mut a = Allocation::new();
    let out = a.do_random(&mut p, Step::Alloc(8, vec![1, 2, 3, 4, 5, 6, 7, 8])).unwrap();
    assert_eq!(out, Outcome::AllocatedAfterDefrag);
    assert!(a.assert_valid(&mut p).is_ok());
}
