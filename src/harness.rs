use vstd::prelude::*;
use crate::counting::count_free;
use crate::pool::{
    blocks_for, clean_keeps_handle_contents, compacted_never_fragmented, first_fit, has_free_slot, set_range, lemma_guard_in_arena, lemma_keeps_allocated_preserves, lemma_relocated_preserves, lemma_write_frame, preserves_handles, preserves_other_handles, EntryState,
    lemma_handle_in_arena, AllocError, DefragError, LockError, Pool, SliceHandle,
};

verus! {

/// Why a check of an allocation against its expected elements failed.
#[derive(Debug)]
pub enum CheckError {
    /// The pool and the expected elements differ in length.
    Length { expected_len: usize, found_len: usize },
    /// The first element at which the pool and the expected elements differ.
    Value { index: usize, expected: u32, found: u32 },
    /// The handle could not be locked.
    Lock(LockError),
    /// An allocation failed for a reason other than lack of memory.
    Alloc(AllocError),
    /// A compaction was refused.
    Defrag(DefragError),
}

/// One randomly chosen action for an allocation, with the random values it needs.
#[derive(Debug)]
pub enum Step {
    /// Drop the handle (only when holding one).
    Deallocate,
    /// Clean the pool (only when holding one).
    Clean,
    /// Overwrite the elements with these values (only when holding one).
    Change(Vec<u32>),
    /// Allocate this many elements by the exhaustive path and fill them with
    /// these values (only when holding none).
    Alloc(u16, Vec<u32>),
    /// The same by the fast path.
    AllocFast(u16, Vec<u32>),
    /// Do nothing.
    Skip,
}

#[derive(Clone, Copy, Debug, PartialEq, Eq, Structural)]
pub enum Outcome {
    Freed,
    Cleaned,
    Changed,
    Allocated,
    /// The first search reported `Fragmented`; allocated after a defrag.
    AllocatedAfterDefrag,
    OutOfMemory,
    Skipped,
}

/// An allocation under test: the elements it should hold, and its handle.
pub struct Allocation {
    pub data: Vec<u32>,
    pub handle: Option<SliceHandle>,
}

/// The allocation holds nothing, or a live unlocked handle whose elements are
/// the expected ones.
pub open spec fn consistent(a: &Allocation, p: &Pool) -> bool {
    match a.handle {
        None => true,
        Some(h) => p.valid_handle(&h) && !p.table()[h.slot() as int].locked && a.data@
            == p.contents(&h),
    }
}

/// How many elements `fill` writes: as many as all three lengths allow.
pub open spec fn fill_count(data: nat, slice: nat, values: nat) -> int {
    if data <= slice && data <= values {
        data as int
    } else if slice <= values {
        slice as int
    } else {
        values as int
    }
}

/// `s` with its first `k` elements taken from `v`.
pub open spec fn overwrite(s: Seq<u32>, v: Seq<u32>, k: int) -> Seq<u32> {
    Seq::new(s.len(), |i: int| if i < k { v[i] } else { s[i] })
}

/// The first `len` of `v`, padded with zeros.
pub open spec fn initial_values(v: Seq<u32>, len: nat) -> Seq<u32> {
    Seq::new(len, |i: int| if i < v.len() { v[i] } else { 0u32 })
}

/// No guard is held on any slot of the pool.
pub open spec fn no_guards(p: &Pool) -> bool {
    forall|i: int| 0 <= i < p.table().len() ==> !(#[trigger] p.table()[i]).locked
}

impl Allocation {
    pub fn new() -> (r: Allocation)
        ensures
            r.data@.len() == 0,
            r.handle is None,
    {
        Allocation { data: Vec::new(), handle: None }
    }

    /// Compares the handle's elements in the pool with the expected ones.
    /// The pool is left as it was.
    pub fn assert_valid(&self, pool: &mut Pool) -> (r: Result<(), CheckError>)
        requires
            old(pool).wf(),
        ensures
            final(pool).wf(),
            final(pool).table() == old(pool).table(),
            final(pool).owners() == old(pool).owners(),
            final(pool).words() == old(pool).words(),
            final(pool).capacity() == old(pool).capacity(),
            final(pool).cache_len() == old(pool).cache_len(),
            r is Err ==> (r matches Err(CheckError::Lock(_))) || (r matches Err(
                CheckError::Length { .. },
            )) || (r matches Err(CheckError::Value { .. })),
            match self.handle {
                None => r is Ok,
                Some(h) => {
                    &&& !old(pool).valid_handle(&h) ==> (r matches Err(
                        CheckError::Lock(LockError::InvalidHandle),
                    ))
                    &&& old(pool).valid_handle(&h) && old(pool).table()[h.slot() as int].locked
                        ==> (r matches Err(CheckError::Lock(LockError::AlreadyLocked)))
                    &&& old(pool).valid_handle(&h) && !old(pool).table()[h.slot() as int].locked
                        ==> {
                        let c = old(pool).contents(&h);
                        &&& (r is Ok <==> self.data@ == c)
                        &&& self.data@.len() == c.len() && self.data@ != c ==> (r matches Err(
                            CheckError::Value { .. },
                        ))
                        &&& self.data@.len() != c.len() ==> (r matches Err(
                            CheckError::Length { expected_len, found_len },
                        ) && expected_len == self.data@.len() && found_len == c.len())
                        &&& (r matches Err(CheckError::Value { index, expected, found }) ==> {
                            &&& self.data@.len() == c.len()
                            &&& index < c.len()
                            &&& expected == self.data@[index as int]
                            &&& found == c[index as int]
                            &&& expected != found
                            &&& forall|j: int| 0 <= j < index ==> self.data@[j] == c[j]
                        })
                    }
                },
            },
    {
        let h = match &self.handle {
            None => {
                return Ok(());
            },
            Some(h) => h,
        };
        let g = match pool.lock(h) {
            Ok(g) => g,
            Err(e) => {
                return Err(CheckError::Lock(e));
            },
        };
        let found = match pool.to_vec(&g) {
            Ok(v) => v,
            Err(e) => {
                return Err(CheckError::Lock(e));
            },
        };
        let _ = pool.unlock(g);
        assert(pool.table() =~= old(pool).table());
        if self.data.len() != found.len() {
            return Err(CheckError::Length { expected_len: self.data.len(), found_len: found.len() });
        }
        let mut i: usize = 0;
        while i < found.len()
            invariant
                self.handle == Some(*h),
                found@ == old(pool).contents(h),
                old(pool).valid_handle(h),
                !old(pool).table()[h.slot() as int].locked,
                pool.wf(),
                pool.table() == old(pool).table(),
                pool.owners() == old(pool).owners(),
                pool.words() == old(pool).words(),
                pool.capacity() == old(pool).capacity(),
                pool.cache_len() == old(pool).cache_len(),
                found@.len() == self.data@.len(),
                i <= found@.len(),
                forall|j: int| 0 <= j < i ==> self.data@[j] == found@[j],
            decreases found.len() - i,
        {
            if self.data[i] != found[i] {
                assert(self.data@[i as int] != found@[i as int]);
                assert(self.data@ != found@);
                return Err(CheckError::Value { index: i, expected: self.data[i], found: found[i] });
            }
            i = i + 1;
        }
        assert(self.data@ =~= found@);
        Ok(())
    }

    /// Overwrites the first elements of the slice, as many as the expected
    /// elements, the slice and `values` all have, and records them as expected.
    pub fn fill(&mut self, pool: &mut Pool, values: &Vec<u32>) -> (r: Result<(), CheckError>)
        requires
            old(pool).wf(),
        ensures
            final(pool).wf(),
            final(pool).table() == old(pool).table(),
            final(pool).owners() == old(pool).owners(),
            final(pool).capacity() == old(pool).capacity(),
            final(pool).cache_len() == old(pool).cache_len(),
            final(self).handle == old(self).handle,
            final(self).data@.len() == old(self).data@.len(),
            r is Err ==> r matches Err(CheckError::Lock(_)),
            r is Err ==> final(pool).words() == old(pool).words() && final(self).data
                == old(self).data,
            match old(self).handle {
                None => r is Ok && final(pool).words() == old(pool).words() && final(self).data
                    == old(self).data,
                Some(h) => {
                    &&& !old(pool).valid_handle(&h) ==> (r matches Err(
                        CheckError::Lock(LockError::InvalidHandle),
                    ))
                    &&& old(pool).valid_handle(&h) && old(pool).table()[h.slot() as int].locked
                        ==> (r matches Err(CheckError::Lock(LockError::AlreadyLocked)))
                    &&& old(pool).valid_handle(&h) && !old(pool).table()[h.slot() as int].locked
                        ==> {
                        let k = fill_count(old(self).data@.len(), h.elems(), values@.len());
                        &&& r is Ok
                        &&& final(self).data@ == overwrite(old(self).data@, values@, k)
                        &&& final(pool).contents(&h) == overwrite(
                            old(pool).contents(&h),
                            values@,
                            k,
                        )
                        &&& preserves_other_handles(&*old(pool), &*final(pool), h.slot())
                    }
                },
            },
    {
        let h = match &self.handle {
            None => {
                return Ok(());
            },
            Some(h) => h,
        };
        let g = match pool.lock(h) {
            Ok(g) => g,
            Err(e) => {
                return Err(CheckError::Lock(e));
            },
        };
        let n: u16 = g.len();
        let mut k: u16 = n;
        if self.data.len() < k as usize {
            k = self.data.len() as u16;
        }
        if values.len() < k as usize {
            k = values.len() as u16;
        }
        let ghost at_lock = *pool;
        let ghost d0 = self.data@;
        let ghost s4 = old(pool).table()[h.slot() as int].start as int * 4;
        proof {
            lemma_guard_in_arena(pool, &g);
            lemma_handle_in_arena(old(pool), h);
        }
        assert(self.data@ =~= overwrite(d0, values@, 0));
        assert(pool.guard_contents(&g) =~= overwrite(at_lock.guard_contents(&g), values@, 0));
        let mut i: u16 = 0;
        while i < k
            invariant
                self.handle == old(self).handle,
                self.handle == Some(*h),
                n as nat == g.elems(),
                g.elems() == h.elems(),
                g.slot() == h.slot(),
                k <= n,
                k <= d0.len(),
                k <= values@.len(),
                i <= k,
                pool.wf(),
                pool.valid_guard(&g),
                pool.table() == at_lock.table(),
                pool.owners() == at_lock.owners(),
                pool.capacity() == at_lock.capacity(),
                pool.cache_len() == at_lock.cache_len(),
                at_lock.guard_contents(&g).len() == g.elems(),
                at_lock.table()[g.slot() as int].start == old(pool).table()[h.slot() as int].start,
                s4 == old(pool).table()[h.slot() as int].start as int * 4,
                pool.words().len() == old(pool).words().len(),
                at_lock.words() == old(pool).words(),
                forall|x: int|
                    0 <= x < old(pool).words().len() && !(s4 <= x < s4 + h.elems())
                        ==> #[trigger] pool.words()[x] == old(pool).words()[x],
                self.data@ == overwrite(d0, values@, i as int),
                pool.guard_contents(&g) == overwrite(at_lock.guard_contents(&g), values@, i as int),
            decreases k - i,
        {
            proof {
                lemma_guard_in_arena(pool, &g);
            }
            let ghost before = pool.guard_contents(&g);
            let _ = pool.set(&g, i, values[i as usize]);
            assert(pool.guard_contents(&g) == before.update(i as int, values@[i as int]));
            self.data.set(i as usize, values[i as usize]);
            i = i + 1;
            assert(self.data@ =~= overwrite(d0, values@, i as int));
            assert(pool.guard_contents(&g) =~= overwrite(
                at_lock.guard_contents(&g),
                values@,
                i as int,
            ));
        }
        let ghost before_unlock = *pool;
        let _ = pool.unlock(g);
        assert(pool.table() =~= old(pool).table());
        assert(pool.contents(h) == before_unlock.guard_contents(&g));
        proof {
            lemma_write_frame(old(pool), pool, h);
        }
        Ok(())
    }

    /// Allocates `len` elements (by the fast path if `fast`) and gives them the
    /// first `len` of `values`, padded with zeros. Where the search reports
    /// `Fragmented`, defragments and retries once by the exhaustive path.
    /// Running out of memory is no error: the allocation stays empty.
    pub fn allocate(&mut self, pool: &mut Pool, len: u16, fast: bool, values: &Vec<u32>) -> (r:
        Result<Outcome, CheckError>)
        requires
            old(pool).wf(),
            old(self).handle is None,
        ensures
            final(pool).wf(),
            final(pool).capacity() == old(pool).capacity(),
            final(pool).cache_len() == old(pool).cache_len(),
            (r matches Ok(Outcome::OutOfMemory)) <==> blocks_for(len as nat) > count_free(
                old(pool).owners(),
            ),
            r matches Ok(Outcome::OutOfMemory) ==> final(self).handle is None && final(self).data
                == old(self).data && final(pool).table() == old(pool).table() && final(pool).owners()
                == old(pool).owners() && final(pool).words() == old(pool).words(),
            r is Err ==> (r matches Err(CheckError::Alloc(_))) || (r matches Err(
                CheckError::Defrag(_),
            )),
            r matches Err(CheckError::Alloc(e)) ==> e == AllocError::NoFreeIndexSlot
                && !has_free_slot(old(pool).table()),
            r matches Err(CheckError::Defrag(_)) ==> !no_guards(&*old(pool)),
            r is Err ==> final(self).handle is None && count_free(final(pool).owners()) == count_free(
                old(pool).owners(),
            ),
            r is Ok ==> (r matches Ok(Outcome::Allocated)) || (r matches Ok(
                Outcome::AllocatedAfterDefrag,
            )) || (r matches Ok(Outcome::OutOfMemory)),
            blocks_for(len as nat) <= count_free(old(pool).owners()) && has_free_slot(
                old(pool).table(),
            ) && no_guards(&*old(pool)) ==> (r matches Ok(Outcome::Allocated)) || (r matches Ok(
                Outcome::AllocatedAfterDefrag,
            )),
            (r matches Ok(Outcome::Allocated)) || (r matches Ok(Outcome::AllocatedAfterDefrag)) ==> {
                &&& final(self).handle is Some
                &&& final(self).handle->Some_0.elems() == len
                &&& old(pool).table()[final(self).handle->Some_0.slot() as int].state
                    == EntryState::Free
                &&& final(pool).table()[final(self).handle->Some_0.slot() as int].blocks
                    == blocks_for(len as nat)
                &&& final(self).data@ == initial_values(values@, len as nat)
                &&& consistent(&*final(self), &*final(pool))
                &&& count_free(final(pool).owners()) + blocks_for(len as nat) == count_free(
                    old(pool).owners(),
                )
            },
            !fast && (r matches Ok(Outcome::Allocated)) ==> first_fit(
                old(pool).owners(),
                blocks_for(len as nat) as int,
                final(pool).table()[final(self).handle->Some_0.slot() as int].start as int,
            ),
            preserves_handles(&*old(pool), &*final(pool)),
    {
        let first = if fast {
            pool.alloc_slice_fast(len)
        } else {
            pool.alloc_slice(len)
        };
        let ghost after_first = *pool;
        let (h, outcome) = match first {
            Ok(h) => {
                proof {
                    lemma_keeps_allocated_preserves(old(pool), pool);
                }
                (h, Outcome::Allocated)
            },
            Err(AllocError::OutOfMemory) => {
                return Ok(Outcome::OutOfMemory);
            },
            Err(AllocError::Fragmented) => {
                match pool.defrag() {
                    Ok(()) => {},
                    Err(e) => {
                        return Err(CheckError::Defrag(e));
                    },
                }
                let ghost after_defrag = *pool;
                proof {
                    compacted_never_fragmented(pool, blocks_for(len as nat) as int);
                    lemma_relocated_preserves(old(pool), pool);
                    if has_free_slot(old(pool).table()) {
                        let j = choose|j: int|
                            0 <= j < old(pool).table().len() && (#[trigger] old(
                                pool,
                            ).table()[j]).state == EntryState::Free;
                        assert(pool.table()[j].state == EntryState::Free);
                    }
                }
                match pool.alloc_slice(len) {
                    Ok(h) => {
                        proof {
                            lemma_keeps_allocated_preserves(&after_defrag, pool);
                            assert forall|h2: SliceHandle| #[trigger]
                                old(pool).valid_handle(&h2) implies pool.valid_handle(&h2)
                                && pool.contents(&h2) == old(pool).contents(&h2) by {
                                assert(after_defrag.valid_handle(&h2));
                            }
                            assert(old(pool).table()[h.slot() as int].state == EntryState::Free);
                        }
                        (h, Outcome::AllocatedAfterDefrag)
                    },
                    Err(e) => {
                        proof {
                            if has_free_slot(old(pool).table()) {
                                let j = choose|j: int|
                                    0 <= j < old(pool).table().len() && (#[trigger] old(
                                        pool,
                                    ).table()[j]).state == EntryState::Free;
                                assert(after_defrag.table()[j].state == EntryState::Free);
                            }
                        }
                        return Err(CheckError::Alloc(e));
                    },
                }
            },
            Err(e) => {
                return Err(CheckError::Alloc(e));
            },
        };
        let ghost after_alloc = *pool;
        let mut init: Vec<u32> = Vec::new();
        let mut k: u16 = 0;
        while k < len
            invariant
                k <= len,
                init@ == initial_values(values@, len as nat).subrange(0, k as int),
            decreases len - k,
        {
            if (k as usize) < values.len() {
                init.push(values[k as usize]);
            } else {
                init.push(0);
            }
            k = k + 1;
            assert(init@ =~= initial_values(values@, len as nat).subrange(0, k as int));
        }
        assert(init@ =~= initial_values(values@, len as nat));
        self.data = init.clone();
        self.handle = Some(h);
        proof {
            lemma_handle_in_arena(pool, &h);
        }
        let _ = self.fill(pool, &init);
        proof {
            let hh = self.handle->Some_0;
            assert(self.data@ =~= init@);
            assert(pool.contents(&hh) =~= init@);
            assert forall|h2: SliceHandle| #[trigger] old(pool).valid_handle(&h2) implies pool.valid_handle(
                &h2,
            ) && pool.contents(&h2) == old(pool).contents(&h2) by {
                assert(after_alloc.valid_handle(&h2));
                assert(h2.slot() != hh.slot());
            }
        }
        Ok(outcome)
    }

    /// Checks the allocation, applies `step` (a step meant for the other
    /// state, full or empty, does nothing), and checks it again.
    pub fn do_random(&mut self, pool: &mut Pool, step: Step) -> (r: Result<Outcome, CheckError>)
        requires
            old(pool).wf(),
        ensures
            final(pool).wf(),
            final(pool).capacity() == old(pool).capacity(),
            r is Ok ==> consistent(&*final(self), &*final(pool)),
            r matches Err(CheckError::Alloc(e)) ==> e == AllocError::NoFreeIndexSlot && old(
                self,
            ).handle is None && (step is Alloc || step is AllocFast) && !has_free_slot(
                old(pool).table(),
            ),
            old(self).handle is Some && !consistent(&*old(self), &*old(pool)) ==> r is Err
                && final(self).data == old(self).data && final(self).handle == old(self).handle
                && final(pool).table() == old(pool).table() && final(pool).owners() == old(
                pool,
            ).owners() && final(pool).words() == old(pool).words(),
            consistent(&*old(self), &*old(pool)) && no_guards(&*old(pool)) ==> {
                &&& match old(self).handle {
                    None => preserves_handles(&*old(pool), &*final(pool)),
                    Some(h) => preserves_other_handles(&*old(pool), &*final(pool), h.slot()),
                }
                &&& match (old(self).handle, step) {
                    (Some(h), Step::Deallocate) => {
                        let e = old(pool).table()[h.slot() as int];
                        &&& r matches Ok(Outcome::Freed)
                        &&& final(self).handle is None
                        &&& final(pool).owners() == set_range(
                            old(pool).owners(),
                            e.start as int,
                            e.blocks as int,
                            None,
                        )
                        &&& count_free(final(pool).owners()) == count_free(old(pool).owners())
                            + e.blocks
                        &&& final(pool).words() == old(pool).words()
                    },
                    (Some(_), Step::Clean) => {
                        &&& r matches Ok(Outcome::Cleaned)
                        &&& old(pool).cleaned(&*final(pool))
                        &&& final(self).data == old(self).data
                        &&& final(self).handle == old(self).handle
                    },
                    (Some(h), Step::Change(v)) => {
                        &&& r matches Ok(Outcome::Changed)
                        &&& final(self).data@ == overwrite(
                            old(self).data@,
                            v@,
                            fill_count(old(self).data@.len(), h.elems(), v@.len()),
                        )
                        &&& final(pool).table() == old(pool).table()
                        &&& final(pool).owners() == old(pool).owners()
                    },
                    (None, Step::Alloc(len, v)) => alloc_step(
                        &*old(pool),
                        &*final(pool),
                        &*final(self),
                        len,
                        v@,
                        r,
                    ),
                    (None, Step::AllocFast(len, v)) => alloc_step(
                        &*old(pool),
                        &*final(pool),
                        &*final(self),
                        len,
                        v@,
                        r,
                    ),
                    _ => {
                        &&& r matches Ok(Outcome::Skipped)
                        &&& final(self).data == old(self).data
                        &&& final(self).handle == old(self).handle
                        &&& final(pool).table() == old(pool).table()
                        &&& final(pool).owners() == old(pool).owners()
                        &&& final(pool).words() == old(pool).words()
                    },
                }
            },
    {
        proof {
            if self.handle is Some && pool.valid_handle(&self.handle->Some_0) {
                lemma_handle_in_arena(pool, &self.handle->Some_0);
            }
        }
        match self.assert_valid(pool) {
            Ok(()) => {},
            Err(e) => {
                return Err(e);
            },
        }
        let ghost checked = *pool;
        let outcome = match (self.handle.is_some(), step) {
            (true, Step::Deallocate) => {
                let h = self.handle.take();
                match h {
                    Some(h) => {
                        let ghost hs = h;
                        pool.release(h);
                        proof {
                            assert forall|h2: SliceHandle| #[trigger]
                                checked.valid_handle(&h2) && h2.slot() != hs.slot() implies pool.valid_handle(
                                &h2,
                            ) && pool.contents(&h2) == checked.contents(&h2) by {}
                        }
                    },
                    None => {},
                }
                self.data = Vec::new();
                Outcome::Freed
            },
            (true, Step::Clean) => {
                pool.clean();
                proof {
                    assert forall|h2: SliceHandle| #[trigger] checked.valid_handle(&h2) implies pool.valid_handle(
                        &h2,
                    ) && pool.contents(&h2) == checked.contents(&h2) by {
                        clean_keeps_handle_contents(&checked, pool, &h2);
                    }
                }
                Outcome::Cleaned
            },
            (true, Step::Change(v)) => {
                match self.fill(pool, &v) {
                    Ok(()) => {},
                    Err(e) => {
                        return Err(e);
                    },
                }
                Outcome::Changed
            },
            (false, Step::Alloc(len, v)) => {
                let res = self.allocate(pool, len, false, &v);
                proof {
                    assert forall|h2: SliceHandle| #[trigger] old(pool).valid_handle(&h2) implies pool.valid_handle(
                        &h2,
                    ) && pool.contents(&h2) == old(pool).contents(&h2) by {
                        assert(checked.valid_handle(&h2));
                    }
                }
                match res {
                    Ok(o) => o,
                    Err(e) => {
                        return Err(e);
                    },
                }
            },
            (false, Step::AllocFast(len, v)) => {
                let res = self.allocate(pool, len, true, &v);
                proof {
                    assert forall|h2: SliceHandle| #[trigger] old(pool).valid_handle(&h2) implies pool.valid_handle(
                        &h2,
                    ) && pool.contents(&h2) == old(pool).contents(&h2) by {
                        assert(checked.valid_handle(&h2));
                    }
                }
                match res {
                    Ok(o) => o,
                    Err(e) => {
                        return Err(e);
                    },
                }
            },
            _ => Outcome::Skipped,
        };
        let ghost mid = *pool;
        let res = self.assert_valid(pool);
        proof {
            if consistent(old(self), old(pool)) && no_guards(old(pool)) && old(self).handle is Some {
                let hs = old(self).handle->Some_0;
                assert forall|h2: SliceHandle| #[trigger]
                    old(pool).valid_handle(&h2) && h2.slot() != hs.slot() implies pool.valid_handle(
                    &h2,
                ) && pool.contents(&h2) == old(pool).contents(&h2) by {
                    assert(checked.valid_handle(&h2));
                    assert(mid.valid_handle(&h2));
                }
            }
        }
        match res {
            Ok(()) => Ok(outcome),
            Err(e) => Err(e),
        }
    }
}

/// What an allocation step owes, for `len` elements with the values `v`.
pub open spec fn alloc_step(
    pre: &Pool,
    post: &Pool,
    a: &Allocation,
    len: u16,
    v: Seq<u32>,
    r: Result<Outcome, CheckError>,
) -> bool {
    let need = blocks_for(len as nat);
    &&& (r matches Ok(Outcome::OutOfMemory)) <==> need > count_free(pre.owners())
    &&& r is Err ==> !has_free_slot(pre.table())
    &&& need <= count_free(pre.owners()) && has_free_slot(pre.table()) ==> (r matches Ok(
        Outcome::Allocated,
    )) || (r matches Ok(Outcome::AllocatedAfterDefrag))
    &&& (r matches Ok(Outcome::Allocated)) || (r matches Ok(Outcome::AllocatedAfterDefrag)) ==> {
        &&& a.handle is Some
        &&& a.handle->Some_0.elems() == len
        &&& pre.table()[a.handle->Some_0.slot() as int].state == EntryState::Free
        &&& post.table()[a.handle->Some_0.slot() as int].blocks == need
        &&& a.data@ == initial_values(v, len as nat)
        &&& count_free(post.owners()) + need == count_free(pre.owners())
    }
    &&& (r matches Ok(Outcome::OutOfMemory)) ==> a.handle is None && post.owners() == pre.owners()
}

} // verus!
