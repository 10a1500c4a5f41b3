use vstd::prelude::*;
use crate::counting::{
    count_free, count_owned, lemma_count_free_le, lemma_count_free_none, lemma_count_free_prefix,
    lemma_count_free_prefix_owned, lemma_count_free_push, lemma_count_free_tail,
    lemma_count_free_update, lemma_owned_plus_free,
};

verus! {

/// Bytes in one block, the unit of allocation.
pub const BLOCK_SIZE: usize = 16;

/// Bytes in one element of a slice (the pool stores `u32` elements).
pub const ELEM_SIZE: usize = 4;

/// Elements that fit in one block.
pub const ELEMS_PER_BLOCK: usize = 4;

/// Largest number of blocks an arena may have: block locations are `u16`.
pub const MAX_BLOCKS: usize = 65535;

/// A block's offset in the arena.
pub type BlockLoc = u16;

/// A slot of the index table.
pub type IndexLoc = u16;

#[derive(Clone, Copy, Debug, PartialEq, Eq, Structural)]
pub enum EntryState {
    Free,
    Allocated,
}

/// One slot of the index table. For an allocated entry, `start` and `blocks`
/// give its run; for a free one they are a hint of a free run (possibly stale).
#[derive(Clone, Copy, Debug, PartialEq, Eq, Structural)]
pub struct Entry {
    pub state: EntryState,
    pub start: BlockLoc,
    pub blocks: BlockLoc,
    pub locked: bool,
}

#[derive(Clone, Copy, Debug, PartialEq, Eq, Structural)]
pub enum ConstructionError {
    /// The byte size is not a whole number of blocks.
    NotBlockMultiple,
    /// The byte size holds more blocks than a block location can name.
    TooManyBlocks,
    /// The cache is larger than the index table.
    CacheTooLarge,
}

#[derive(Clone, Copy, Debug, PartialEq, Eq, Structural)]
pub enum AllocError {
    /// Fewer free blocks in all than the request needs.
    OutOfMemory,
    /// Enough free blocks, but no contiguous run within the searched scope.
    Fragmented,
    /// Every index slot is in use.
    NoFreeIndexSlot,
}

#[derive(Clone, Copy, Debug, PartialEq, Eq, Structural)]
pub enum LockError {
    /// The handle names no allocated slot of this pool that can hold it.
    InvalidHandle,
    /// A guard on this handle is already held.
    AlreadyLocked,
    /// The guard is no longer held.
    NotLocked,
    /// The element index is past the slice's end.
    OutOfBounds,
}

#[derive(Clone, Copy, Debug, PartialEq, Eq, Structural)]
pub enum DefragError {
    /// A guard is held, so no data may move.
    GuardHeld,
}

/// Blocks needed to hold `len` elements.
pub open spec fn blocks_for(len: nat) -> nat {
    (len + 3) / 4
}

/// Blocks `[start, start + n)` lie in the map and are all free.
pub open spec fn run_free(s: Seq<Option<u16>>, start: int, n: int) -> bool {
    0 <= start && 0 <= n && start + n <= s.len() && forall|k: int|
        start <= k < start + n ==> (#[trigger] s[k]) is None
}

/// Some run of `n` free blocks exists.
pub open spec fn has_run(s: Seq<Option<u16>>, n: int) -> bool {
    exists|t: int| run_free(s, t, n)
}

/// `start` is the lowest block at which `n` free blocks begin.
pub open spec fn first_fit(s: Seq<Option<u16>>, n: int, start: int) -> bool {
    run_free(s, start, n) && forall|t: int| 0 <= t < start ==> !run_free(s, t, n)
}

/// `[t, t + m)` is a non-empty free run that cannot be extended either way.
pub open spec fn maximal_run(s: Seq<Option<u16>>, t: int, m: int) -> bool {
    &&& m > 0
    &&& run_free(s, t, m)
    &&& (t == 0 || s[t - 1] is Some)
    &&& (t + m == s.len() || s[t + m] is Some)
}

/// The free hints after a clean: each free slot's hint is empty or a maximal
/// free run, and where a free slot is left without one, every maximal run has one.
pub open spec fn hints_coalesced(s: Seq<Option<u16>>, e: Seq<Entry>) -> bool {
    &&& forall|i: int|
        0 <= i < e.len() && (#[trigger] e[i]).state == EntryState::Free ==> !e[i].locked && (
        e[i].blocks == 0 || maximal_run(s, e[i].start as int, e[i].blocks as int))
    &&& (exists|i: int|
        0 <= i < e.len() && (#[trigger] e[i]).state == EntryState::Free && e[i].blocks == 0)
        ==> forall|t: int, m: int|
        #[trigger] maximal_run(s, t, m) ==> exists|k: int|
            0 <= k < e.len() && (#[trigger] e[k]).state == EntryState::Free && e[k].start == t
                && e[k].blocks == m
}

/// Some slot of the table is free.
pub open spec fn has_free_slot(e: Seq<Entry>) -> bool {
    exists|j: int| 0 <= j < e.len() && (#[trigger] e[j]).state == EntryState::Free
}

/// The map with blocks `[start, start + n)` set to `v`.
pub open spec fn set_range(s: Seq<Option<u16>>, start: int, n: int, v: Option<u16>) -> Seq<
    Option<u16>,
> {
    Seq::new(s.len(), |x: int| if start <= x < start + n { v } else { s[x] })
}

/// A free cache slot whose hint is a free run long enough for `n` blocks.
pub open spec fn usable_hint(s: Seq<Option<u16>>, e: Seq<Entry>, i: int, n: int) -> bool {
    0 <= i < e.len() && e[i].state == EntryState::Free && e[i].blocks >= n && run_free(
        s,
        e[i].start as int,
        n,
    )
}

/// What an exhaustive search for `n` blocks reports, `None` on success.
pub open spec fn exhaustive_outcome(s: Seq<Option<u16>>, e: Seq<Entry>, n: int) -> Option<
    AllocError,
> {
    if n > count_free(s) {
        Some(AllocError::OutOfMemory)
    } else if !has_run(s, n) {
        Some(AllocError::Fragmented)
    } else if !has_free_slot(e) {
        Some(AllocError::NoFreeIndexSlot)
    } else {
        None
    }
}

/// What a search of the first `cache` slots for `n` blocks reports, `None` on success.
pub open spec fn fast_outcome(s: Seq<Option<u16>>, e: Seq<Entry>, cache: int, n: int) -> Option<
    AllocError,
> {
    if n > count_free(s) {
        Some(AllocError::OutOfMemory)
    } else if !(exists|i: int| 0 <= i < cache && usable_hint(s, e, i, n)) {
        Some(AllocError::Fragmented)
    } else {
        None
    }
}

/// The free blocks form one run at the end of the arena.
pub open spec fn compacted(s: Seq<Option<u16>>) -> bool {
    forall|b: int| 0 <= b < s.len() ==> ((#[trigger] s[b]) is None <==> b >= s.len() - count_free(s))
}

/// Appends the words of blocks `[from, from + k)` of `src` to `dst`.
fn push_blocks(dst: &mut Vec<u32>, src: &Vec<u32>, from: usize, k: usize)
    requires
        (from + k) * 4 <= src@.len(),
        (from + k) * 4 <= usize::MAX,
    ensures
        final(dst)@ == old(dst)@ + src@.subrange(from as int * 4, (from + k) as int * 4),
{
    let mut t: usize = 0;
    while t < k * 4
        invariant
            (from + k) * 4 <= src@.len(),
            (from + k) * 4 <= usize::MAX,
            t <= k * 4,
            dst@ == old(dst)@ + src@.subrange(from as int * 4, from as int * 4 + t),
        decreases k * 4 - t,
    {
        dst.push(src[from * 4 + t]);
        t = t + 1;
        assert(dst@ =~= old(dst)@ + src@.subrange(from as int * 4, from as int * 4 + t));
    }
}

/// Appends `k` copies of `v` to `dst`.
fn push_owner(dst: &mut Vec<Option<u16>>, v: Option<u16>, k: usize)
    ensures
        final(dst)@ == old(dst)@ + Seq::new(k as nat, |x: int| v),
{
    let mut t: usize = 0;
    while t < k
        invariant
            t <= k,
            dst@ == old(dst)@ + Seq::new(t as nat, |x: int| v),
        decreases k - t,
    {
        dst.push(v);
        t = t + 1;
        assert(dst@ =~= old(dst)@ + Seq::new(t as nat, |x: int| v));
    }
}

/// Every allocated slot of `pre` is the same in `post`.
pub open spec fn keeps_allocated(pre: &Pool, post: &Pool) -> bool {
    &&& post.table().len() == pre.table().len()
    &&& forall|j: int|
        0 <= j < pre.table().len() && (#[trigger] pre.table()[j]).state == EntryState::Allocated
            ==> post.table()[j] == pre.table()[j]
}

/// Every handle live in `pre` is live in `post` and sees the same elements.
pub open spec fn preserves_handles(pre: &Pool, post: &Pool) -> bool {
    forall|h: SliceHandle|
        #[trigger] pre.valid_handle(&h) ==> post.valid_handle(&h) && post.contents(&h)
            == pre.contents(&h)
}

/// The same, for every handle not bound to slot `slot`.
pub open spec fn preserves_other_handles(pre: &Pool, post: &Pool, slot: nat) -> bool {
    forall|h: SliceHandle|
        #[trigger] pre.valid_handle(&h) && h.slot() != slot ==> post.valid_handle(&h)
            && post.contents(&h) == pre.contents(&h)
}

/// A capability for one allocated slot: `len` elements in the run of slot `index`.
/// The handle holds no reference to its pool, so dropping it frees nothing:
/// hand it to `Pool::release`, which consumes it, or its slot and blocks stay
/// allocated.
#[derive(Debug)]
pub struct SliceHandle {
    index: IndexLoc,
    len: u16,
}

/// Proof that a handle's slot is locked; element access goes through it.
#[derive(Debug)]
pub struct Guard {
    index: IndexLoc,
    len: u16,
}

impl SliceHandle {
    pub closed spec fn slot(&self) -> nat {
        self.index as nat
    }

    pub closed spec fn elems(&self) -> nat {
        self.len as nat
    }

    /// Number of elements of the slice.
    pub fn len(&self) -> (r: u16)
        ensures
            r as nat == self.elems(),
    {
        self.len
    }

    /// The index slot the handle is bound to.
    pub fn index(&self) -> (r: IndexLoc)
        ensures
            r as nat == self.slot(),
    {
        self.index
    }
}

impl Guard {
    pub closed spec fn slot(&self) -> nat {
        self.index as nat
    }

    pub closed spec fn elems(&self) -> nat {
        self.len as nat
    }

    /// Number of elements reachable through the guard.
    pub fn len(&self) -> (r: u16)
        ensures
            r as nat == self.elems(),
    {
        self.len
    }
}

/// The pool: arena words, the owner of each block, and the index table.
pub struct Pool {
    arena: Vec<u32>,
    owner: Vec<Option<u16>>,
    entries: Vec<Entry>,
    nblocks: u16,
    cache: u16,
    free_blocks: u16,
}

impl Pool {
    /// Number of blocks in the arena.
    pub closed spec fn capacity(&self) -> nat {
        self.nblocks as nat
    }

    /// Size of the fast-path search scope.
    pub closed spec fn cache_len(&self) -> nat {
        self.cache as nat
    }

    /// The index table.
    pub closed spec fn table(&self) -> Seq<Entry> {
        self.entries@
    }

    /// For each block, the slot that owns it.
    pub closed spec fn owners(&self) -> Seq<Option<u16>> {
        self.owner@
    }

    /// The arena, element by element.
    pub closed spec fn words(&self) -> Seq<u32> {
        self.arena@
    }

    pub closed spec fn wf(&self) -> bool {
        &&& self.owner@.len() == self.nblocks as nat
        &&& self.arena@.len() == self.nblocks as nat * 4
        &&& self.entries@.len() <= 65535
        &&& self.cache as nat <= self.entries@.len()
        &&& self.free_blocks as nat == count_free(self.owner@)
        &&& forall|i: int|
            0 <= i < self.entries@.len() ==> (#[trigger] self.entries@[i]).start as nat
                + self.entries@[i].blocks as nat <= self.nblocks as nat
        &&& forall|i: int|
            0 <= i < self.entries@.len() && (#[trigger] self.entries@[i]).locked
                ==> self.entries@[i].state == EntryState::Allocated
        &&& forall|b: int|
            0 <= b < self.owner@.len() && (#[trigger] self.owner@[b]) is Some ==> {
                let i = self.owner@[b]->Some_0 as int;
                &&& 0 <= i < self.entries@.len()
                &&& self.entries@[i].state == EntryState::Allocated
                &&& self.entries@[i].start <= b < self.entries@[i].start + self.entries@[i].blocks
            }
        &&& forall|i: int, b: int|
            0 <= i < self.entries@.len() && (#[trigger] self.entries@[i]).state
                == EntryState::Allocated && self.entries@[i].start <= b
                < self.entries@[i].start + self.entries@[i].blocks ==> #[trigger] self.owner@[b]
                == Some(i as u16)
    }

    /// What `clean` leaves: the same block map, arena and allocated slots;
    /// free slots stay free and carry coalesced hints.
    pub open spec fn cleaned(&self, post: &Pool) -> bool {
        &&& post.capacity() == self.capacity()
        &&& post.cache_len() == self.cache_len()
        &&& post.words() == self.words()
        &&& post.owners() == self.owners()
        &&& post.table().len() == self.table().len()
        &&& forall|i: int|
            0 <= i < self.table().len() ==> (#[trigger] post.table()[i]).state
                == self.table()[i].state
        &&& forall|i: int|
            0 <= i < self.table().len() && (#[trigger] self.table()[i]).state
                == EntryState::Allocated ==> post.table()[i] == self.table()[i]
        &&& hints_coalesced(post.owners(), post.table())
    }

    /// What `defrag` leaves: every slot keeps its state and lock, every
    /// allocated run keeps its length and words (at a new start), the free
    /// blocks are as many as before and form one run at the end.
    pub open spec fn relocated(&self, post: &Pool) -> bool {
        &&& post.capacity() == self.capacity()
        &&& post.cache_len() == self.cache_len()
        &&& post.table().len() == self.table().len()
        &&& count_free(post.owners()) == count_free(self.owners())
        &&& compacted(post.owners())
        &&& hints_coalesced(post.owners(), post.table())
        &&& forall|i: int|
            0 <= i < self.table().len() ==> {
                let e = self.table()[i];
                let f = #[trigger] post.table()[i];
                &&& f.state == e.state
                &&& f.locked == e.locked
                &&& e.state == EntryState::Allocated ==> f.blocks == e.blocks
                    && post.words().subrange(f.start as int * 4, (f.start + f.blocks) as int * 4)
                    == self.words().subrange(e.start as int * 4, (e.start + e.blocks) as int * 4)
            }
    }

    /// The elements a handle currently sees.
    pub open spec fn contents(&self, h: &SliceHandle) -> Seq<u32> {
        let s = self.table()[h.slot() as int].start as int * 4;
        self.words().subrange(s, s + h.elems())
    }

    /// The elements a guard currently sees.
    pub open spec fn guard_contents(&self, g: &Guard) -> Seq<u32> {
        let s = self.table()[g.slot() as int].start as int * 4;
        self.words().subrange(s, s + g.elems())
    }

    /// The handle names an allocated slot whose run holds all its elements.
    pub open spec fn valid_handle(&self, h: &SliceHandle) -> bool {
        &&& h.slot() < self.table().len()
        &&& self.table()[h.slot() as int].state == EntryState::Allocated
        &&& h.elems() <= self.table()[h.slot() as int].blocks as nat * 4
    }

    /// The guard's slot is allocated, locked, and holds all its elements.
    pub open spec fn valid_guard(&self, g: &Guard) -> bool {
        &&& g.slot() < self.table().len()
        &&& self.table()[g.slot() as int].state == EntryState::Allocated
        &&& self.table()[g.slot() as int].locked
        &&& g.elems() <= self.table()[g.slot() as int].blocks as nat * 4
    }

    /// Creates a pool of `size` bytes with `indexes` slots, of which the first
    /// `index_cache` are searched by the fast path.
    pub fn new(size: usize, indexes: IndexLoc, index_cache: IndexLoc) -> (r: Result<
        Pool,
        ConstructionError,
    >)
        ensures
            size % 16 != 0 ==> r == Err::<Pool, ConstructionError>(
                ConstructionError::NotBlockMultiple,
            ),
            size % 16 == 0 && size / 16 > 65535 ==> r == Err::<Pool, ConstructionError>(
                ConstructionError::TooManyBlocks,
            ),
            size % 16 == 0 && size / 16 <= 65535 && index_cache > indexes ==> r == Err::<
                Pool,
                ConstructionError,
            >(ConstructionError::CacheTooLarge),
            size % 16 == 0 && size / 16 <= 65535 && index_cache <= indexes ==> r is Ok,
            r matches Ok(p) ==> {
                &&& p.wf()
                &&& p.capacity() == size / 16
                &&& p.cache_len() == index_cache
                &&& p.table().len() == indexes
                &&& forall|i: int|
                    0 <= i < indexes ==> (#[trigger] p.table()[i]).state == EntryState::Free
                        && !p.table()[i].locked
                &&& indexes > 0 ==> p.table()[0].start == 0 && p.table()[0].blocks == p.capacity()
                &&& forall|b: int| 0 <= b < p.capacity() ==> (#[trigger] p.owners()[b]) is None
                &&& count_free(p.owners()) == p.capacity()
            },
    {
        if size % BLOCK_SIZE != 0 {
            return Err(ConstructionError::NotBlockMultiple);
        }
        if size / BLOCK_SIZE > MAX_BLOCKS {
            return Err(ConstructionError::TooManyBlocks);
        }
        if index_cache > indexes {
            return Err(ConstructionError::CacheTooLarge);
        }
        let n = (size / BLOCK_SIZE) as u16;
        let mut arena: Vec<u32> = Vec::new();
        let mut owner: Vec<Option<u16>> = Vec::new();
        let mut b: usize = 0;
        while b < n as usize
            invariant
                b <= n,
                owner@.len() == b,
                arena@.len() == b * 4,
                count_free(owner@) == b,
                forall|x: int| 0 <= x < b ==> (#[trigger] owner@[x]) is None,
            decreases n - b,
        {
            proof {
                lemma_count_free_push(owner@, None);
            }
            owner.push(None);
            arena.push(0);
            arena.push(0);
            arena.push(0);
            arena.push(0);
            b = b + 1;
        }
        let mut entries: Vec<Entry> = Vec::new();
        let mut i: u16 = 0;
        while i < indexes
            invariant
                i <= indexes,
                entries@.len() == i,
                forall|j: int|
                    0 <= j < i ==> #[trigger] entries@[j] == (if j == 0 {
                        Entry { state: EntryState::Free, start: 0, blocks: n, locked: false }
                    } else {
                        Entry { state: EntryState::Free, start: 0, blocks: 0, locked: false }
                    }),
            decreases indexes - i,
        {
            let hint = if i == 0 {
                n
            } else {
                0
            };
            entries.push(Entry { state: EntryState::Free, start: 0, blocks: hint, locked: false });
            i = i + 1;
        }
        Ok(Pool { arena, owner, entries, nblocks: n, cache: index_cache, free_blocks: n })
    }

    /// Size of the arena in bytes.
    pub fn size(&self) -> (r: usize)
        requires
            self.wf(),
        ensures
            r == self.capacity() * 16,
    {
        self.nblocks as usize * BLOCK_SIZE
    }

    /// Number of slots in the index table.
    pub fn len_indexes(&self) -> (r: IndexLoc)
        requires
            self.wf(),
        ensures
            r == self.table().len(),
    {
        self.entries.len() as u16
    }

    /// First-fit search of the whole arena for `need` free blocks.
    fn find_run(&self, need: usize) -> (r: Option<usize>)
        requires
            self.wf(),
        ensures
            r matches Some(s) ==> first_fit(self.owners(), need as int, s as int),
            r is None ==> !has_run(self.owners(), need as int),
    {
        let n = self.nblocks as usize;
        let ghost s = self.owner@;
        if need == 0 {
            return Some(0);
        }
        let mut run_start: usize = 0;
        let mut b: usize = 0;
        while b < n
            invariant
                self.wf(),
                s == self.owner@,
                n == s.len(),
                need > 0,
                run_start <= b <= n,
                b - run_start < need,
                forall|k: int| run_start <= k < b ==> (#[trigger] s[k]) is None,
                forall|t: int| 0 <= t < run_start ==> !run_free(s, t, need as int),
            decreases n - b,
        {
            if self.owner[b].is_some() {
                assert forall|t: int| 0 <= t < b + 1 implies !run_free(s, t, need as int) by {
                    if t >= run_start && run_free(s, t, need as int) {
                        assert(s[b as int] is None);
                    }
                }
                run_start = b + 1;
                b = b + 1;
            } else {
                b = b + 1;
                if b - run_start == need {
                    return Some(run_start);
                }
            }
        }
        assert forall|t: int| !run_free(s, t, need as int) by {
            if t >= run_start && run_free(s, t, need as int) {
            }
        }
        None
    }

    /// The highest free slot of the table, if any.
    fn find_free_slot(&self) -> (r: Option<usize>)
        requires
            self.wf(),
        ensures
            r matches Some(j) ==> j < self.table().len() && self.table()[j as int].state
                == EntryState::Free && forall|k: int|
                j < k < self.table().len() ==> (#[trigger] self.table()[k]).state
                    == EntryState::Allocated,
            r is None ==> !has_free_slot(self.table()),
    {
        let mut j: usize = self.entries.len();
        while j > 0
            invariant
                j <= self.entries@.len(),
                forall|k: int|
                    j <= k < self.entries@.len() ==> (#[trigger] self.entries@[k]).state
                        == EntryState::Allocated,
            decreases j,
        {
            j = j - 1;
            if self.entries[j].state == EntryState::Free {
                return Some(j);
            }
        }
        None
    }

    /// Gives the free run `[start, start + need)` to the free slot `slot`.
    fn claim(&mut self, slot: usize, start: usize, need: usize)
        requires
            old(self).wf(),
            slot < old(self).table().len(),
            old(self).table()[slot as int].state == EntryState::Free,
            run_free(old(self).owners(), start as int, need as int),
        ensures
            final(self).wf(),
            final(self).capacity() == old(self).capacity(),
            final(self).cache_len() == old(self).cache_len(),
            final(self).words() == old(self).words(),
            final(self).table() == old(self).table().update(
                slot as int,
                Entry {
                    state: EntryState::Allocated,
                    start: start as u16,
                    blocks: need as u16,
                    locked: false,
                },
            ),
            final(self).owners() == set_range(
                old(self).owners(),
                start as int,
                need as int,
                Some(slot as u16),
            ),
            count_free(final(self).owners()) + need == count_free(old(self).owners()),
    {
        let ghost s0 = self.owner@;
        let mut k: usize = 0;
        assert(self.owner@ =~= set_range(s0, start as int, 0, Some(slot as u16)));
        while k < need
            invariant
                run_free(s0, start as int, need as int),
                s0 == old(self).owner@,
                self.entries@ == old(self).entries@,
                self.arena@ == old(self).arena@,
                self.nblocks == old(self).nblocks,
                self.cache == old(self).cache,
                slot < self.entries@.len() <= 65535,
                s0.len() == self.nblocks as nat,
                self.owner@.len() == s0.len(),
                k <= need,
                self.owner@ == set_range(s0, start as int, k as int, Some(slot as u16)),
                self.free_blocks as nat + k == count_free(s0),
                self.free_blocks as nat == count_free(self.owner@),
            decreases need - k,
        {
            proof {
                lemma_count_free_update(self.owner@, (start + k) as int, Some(slot as u16));
            }
            self.owner.set(start + k, Some(slot as u16));
            self.free_blocks = self.free_blocks - 1;
            k = k + 1;
            assert(self.owner@ =~= set_range(s0, start as int, k as int, Some(slot as u16)));
        }
        self.entries.set(
            slot,
            Entry {
                state: EntryState::Allocated,
                start: start as u16,
                blocks: need as u16,
                locked: false,
            },
        );
        let ghost e = self.entries@;
        let ghost o = self.owner@;
        assert forall|b: int| 0 <= b < o.len() && (#[trigger] o[b]) is Some implies {
            let i = o[b]->Some_0 as int;
            &&& 0 <= i < e.len()
            &&& e[i].state == EntryState::Allocated
            &&& e[i].start <= b < e[i].start + e[i].blocks
        } by {
            if !(start <= b < start + need) {
                assert(s0[b] == o[b]);
            }
        }
        assert forall|i: int, b: int|
            0 <= i < e.len() && (#[trigger] e[i]).state == EntryState::Allocated && e[i].start
                <= b < e[i].start + e[i].blocks implies #[trigger] o[b] == Some(i as u16) by {
            if i != slot {
                assert(old(self).entries@[i] == e[i]);
                assert(s0[b] == Some(i as u16));
            }
        }
    }

    /// Blocks needed for `len` elements.
    pub fn blocks_needed(len: u16) -> (r: usize)
        ensures
            r == blocks_for(len as nat),
    {
        (len as usize + ELEMS_PER_BLOCK - 1) / ELEMS_PER_BLOCK
    }

    /// Allocates `len` elements, searching the whole arena first-fit.
    pub fn alloc_slice(&mut self, len: u16) -> (r: Result<SliceHandle, AllocError>)
        requires
            old(self).wf(),
        ensures
            final(self).wf(),
            final(self).capacity() == old(self).capacity(),
            final(self).cache_len() == old(self).cache_len(),
            final(self).words() == old(self).words(),
            keeps_allocated(&*old(self), &*final(self)),
            r is Ok ==> count_free(final(self).owners()) + blocks_for(len as nat) == count_free(
                old(self).owners(),
            ),
            match r {
                Ok(_) => exhaustive_outcome(
                    old(self).owners(),
                    old(self).table(),
                    blocks_for(len as nat) as int,
                ) is None,
                Err(e) => exhaustive_outcome(
                    old(self).owners(),
                    old(self).table(),
                    blocks_for(len as nat) as int,
                ) == Some(e),
            },
            r is Err ==> final(self).table() == old(self).table() && final(self).owners()
                == old(self).owners(),
            r matches Ok(h) ==> {
                let need = blocks_for(len as nat) as int;
                let slot = h.slot() as int;
                let start = final(self).table()[slot].start as int;
                &&& h.elems() == len
                &&& final(self).valid_handle(&h)
                &&& slot < old(self).table().len()
                &&& old(self).table()[slot].state == EntryState::Free
                &&& forall|j: int|
                    slot < j < old(self).table().len() ==> (#[trigger] old(self).table()[j]).state
                        == EntryState::Allocated
                &&& first_fit(old(self).owners(), need, start)
                &&& final(self).table() == old(self).table().update(
                    slot,
                    Entry {
                        state: EntryState::Allocated,
                        start: start as u16,
                        blocks: need as u16,
                        locked: false,
                    },
                )
                &&& final(self).owners() == set_range(
                    old(self).owners(),
                    start,
                    need,
                    Some(slot as u16),
                )
            },
    {
        let need = Pool::blocks_needed(len);
        if need > self.free_blocks as usize {
            return Err(AllocError::OutOfMemory);
        }
        let start = match self.find_run(need) {
            Some(s) => s,
            None => {
                return Err(AllocError::Fragmented);
            },
        };
        let slot = match self.find_free_slot() {
            Some(j) => j,
            None => {
                return Err(AllocError::NoFreeIndexSlot);
            },
        };
        self.claim(slot, start, need);
        Ok(SliceHandle { index: slot as u16, len })
    }

    /// Whether blocks `[start, start + n)` are all free.
    fn span_free(&self, start: usize, n: usize) -> (r: bool)
        requires
            self.wf(),
            start + n <= self.capacity(),
        ensures
            r == run_free(self.owners(), start as int, n as int),
    {
        let mut k: usize = start;
        while k < start + n
            invariant
                self.wf(),
                start <= k <= start + n,
                start + n <= self.owner@.len(),
                forall|x: int| start <= x < k ==> (#[trigger] self.owner@[x]) is None,
            decreases start + n - k,
        {
            if self.owner[k].is_some() {
                assert(self.owner@[k as int] is Some);
                return false;
            }
            k = k + 1;
        }
        true
    }

    /// Allocates `len` elements, looking only at the free-run hints of the
    /// first `cache_len()` slots. `Fragmented` here says only that the cache
    /// held no fitting run; the whole arena may still hold one.
    pub fn alloc_slice_fast(&mut self, len: u16) -> (r: Result<SliceHandle, AllocError>)
        requires
            old(self).wf(),
        ensures
            final(self).wf(),
            final(self).capacity() == old(self).capacity(),
            final(self).cache_len() == old(self).cache_len(),
            final(self).words() == old(self).words(),
            keeps_allocated(&*old(self), &*final(self)),
            r is Ok ==> count_free(final(self).owners()) + blocks_for(len as nat) == count_free(
                old(self).owners(),
            ),
            match r {
                Ok(_) => fast_outcome(
                    old(self).owners(),
                    old(self).table(),
                    old(self).cache_len() as int,
                    blocks_for(len as nat) as int,
                ) is None,
                Err(e) => fast_outcome(
                    old(self).owners(),
                    old(self).table(),
                    old(self).cache_len() as int,
                    blocks_for(len as nat) as int,
                ) == Some(e),
            },
            r is Err ==> final(self).table() == old(self).table() && final(self).owners()
                == old(self).owners(),
            r matches Ok(h) ==> {
                let need = blocks_for(len as nat) as int;
                let slot = h.slot() as int;
                let start = final(self).table()[slot].start as int;
                &&& h.elems() == len
                &&& final(self).valid_handle(&h)
                &&& slot < old(self).table().len()
                &&& old(self).table()[slot].state == EntryState::Free
                &&& exists|i: int|
                    0 <= i < old(self).cache_len() && #[trigger] usable_hint(
                        old(self).owners(),
                        old(self).table(),
                        i,
                        need,
                    ) && old(self).table()[i].start == start && forall|j: int|
                        0 <= j < i ==> !usable_hint(old(self).owners(), old(self).table(), j, need)
                &&& final(self).table()[slot] == (Entry {
                    state: EntryState::Allocated,
                    start: start as u16,
                    blocks: need as u16,
                    locked: false,
                })
                &&& final(self).table().len() == old(self).table().len()
                &&& forall|j: int|
                    0 <= j < old(self).table().len() && j != slot ==> {
                        let e = old(self).table()[j];
                        let f = #[trigger] final(self).table()[j];
                        f == e || (e.state == EntryState::Free && f.state == EntryState::Free
                            && !f.locked && e.start == start && f.start == e.start + need
                            && f.blocks + need == e.blocks)
                    }
                &&& final(self).owners() == set_range(
                    old(self).owners(),
                    start,
                    need,
                    Some(slot as u16),
                )
            },
    {
        let need = Pool::blocks_needed(len);
        if need > self.free_blocks as usize {
            return Err(AllocError::OutOfMemory);
        }
        let ghost s0 = self.owner@;
        let ghost e0 = self.entries@;
        let mut i: usize = 0;
        let mut found = false;
        while !found && i < self.cache as usize
            invariant
                self.wf(),
                self.owner@ == s0,
                self.entries@ == e0,
                i <= self.cache,
                found ==> i < self.cache && usable_hint(s0, e0, i as int, need as int),
                forall|j: int| 0 <= j < i ==> !usable_hint(s0, e0, j, need as int),
            decreases self.cache - i + if found { 0int } else { 1int },
        {
            let e = self.entries[i];
            if e.state == EntryState::Free && e.blocks as usize >= need && self.span_free(
                e.start as usize,
                need,
            ) {
                found = true;
            } else {
                i = i + 1;
            }
        }
        if !found {
            return Err(AllocError::Fragmented);
        }
        assert(usable_hint(s0, e0, i as int, need as int));
        let e = self.entries[i];
        let start = e.start as usize;
        let slot = match self.find_free_slot() {
            Some(j) => j,
            None => {
                return Err(AllocError::NoFreeIndexSlot);
            },
        };
        if slot != i {
            self.entries.set(
                i,
                Entry {
                    state: EntryState::Free,
                    start: e.start + need as u16,
                    blocks: e.blocks - need as u16,
                    locked: false,
                },
            );
            assert(forall|k: int|
                0 <= k < self.entries@.len() && k != i ==> #[trigger] self.entries@[k] == e0[k]);
        }
        self.claim(slot, start, need);
        Ok(SliceHandle { index: slot as u16, len })
    }

    /// Rebuilds the free-run hints from the block map, merging adjacent free
    /// blocks into maximal runs. Allocated slots, the block map and the arena
    /// are untouched.
    pub fn clean(&mut self)
        requires
            old(self).wf(),
        ensures
            final(self).wf(),
            final(self).capacity() == old(self).capacity(),
            final(self).cache_len() == old(self).cache_len(),
            final(self).words() == old(self).words(),
            old(self).cleaned(&*final(self)),
    {
        let len = self.entries.len();
        let n = self.nblocks as usize;
        let ghost s = self.owner@;
        let ghost e0 = self.entries@;
        let mut i: usize = 0;
        while i < len
            invariant
                self.wf(),
                len == self.entries@.len() == e0.len(),
                n == self.nblocks as nat == s.len(),
                self.owner@ == s,
                self.arena@ == old(self).arena@,
                self.cache == old(self).cache,
                self.nblocks == old(self).nblocks,
                e0 == old(self).entries@,
                i <= len,
                forall|k: int|
                    0 <= k < len ==> (#[trigger] self.entries@[k]).state == e0[k].state,
                forall|k: int|
                    0 <= k < len && e0[k].state == EntryState::Allocated
                        ==> #[trigger] self.entries@[k] == e0[k],
                forall|k: int|
                    0 <= k < i && e0[k].state == EntryState::Free ==> #[trigger] self.entries@[k]
                        == (Entry { state: EntryState::Free, start: 0, blocks: 0, locked: false }),
            decreases len - i,
        {
            if self.entries[i].state == EntryState::Free {
                self.entries.set(
                    i,
                    Entry { state: EntryState::Free, start: 0, blocks: 0, locked: false },
                );
            }
            i = i + 1;
        }
        let mut j: usize = 0;
        let mut b: usize = 0;
        while b < n && j < len
            invariant
                self.wf(),
                len == self.entries@.len() == e0.len(),
                n == self.nblocks as nat == s.len(),
                self.owner@ == s,
                self.arena@ == old(self).arena@,
                self.cache == old(self).cache,
                self.nblocks == old(self).nblocks,
                e0 == old(self).entries@,
                b <= n,
                j <= len,
                b == 0 || b == n || s[b - 1] is Some,
                forall|k: int|
                    0 <= k < len ==> (#[trigger] self.entries@[k]).state == e0[k].state,
                forall|k: int|
                    0 <= k < len && e0[k].state == EntryState::Allocated
                        ==> #[trigger] self.entries@[k] == e0[k],
                forall|k: int|
                    j <= k < len && e0[k].state == EntryState::Free ==> #[trigger] self.entries@[k]
                        == (Entry { state: EntryState::Free, start: 0, blocks: 0, locked: false }),
                forall|k: int|
                    0 <= k < j && e0[k].state == EntryState::Free ==> !(
                    #[trigger] self.entries@[k]).locked && maximal_run(
                        s,
                        self.entries@[k].start as int,
                        self.entries@[k].blocks as int,
                    ),
                j == len || forall|t: int, m: int|
                    #[trigger] maximal_run(s, t, m) && t < b ==> exists|k: int|
                        0 <= k < j && (#[trigger] self.entries@[k]).state == EntryState::Free
                            && self.entries@[k].start == t && self.entries@[k].blocks == m,
            decreases n - b,
        {
            if self.owner[b].is_some() {
                assert forall|m: int| !maximal_run(s, b as int, m) by {
                    if m > 0 && run_free(s, b as int, m) {
                        assert(s[b as int] is None);
                    }
                }
                b = b + 1;
            } else {
                let mut e: usize = b;
                while e < n && self.owner[e].is_none()
                    invariant
                        self.owner@ == s,
                        n == s.len(),
                        b <= e <= n,
                        forall|x: int| b <= x < e ==> (#[trigger] s[x]) is None,
                    decreases n - e,
                {
                    e = e + 1;
                }
                assert(maximal_run(s, b as int, (e - b) as int));
                assert forall|t: int, m: int|
                    maximal_run(s, t, m) && b <= t < (if e < n { e + 1 } else { n as int }) implies t
                        == b && m == e - b by {
                    if t > b && t < e {
                        assert(s[t - 1] is None);
                    }
                    if t == e {
                        assert(s[t] is None);
                    }
                    if t == b && m > e - b {
                        assert(s[e as int] is None);
                    }
                    if t == b && m < e - b {
                        assert(s[t + m] is None);
                    }
                }
                let ghost jj = j;
                while j < len && self.entries[j].state == EntryState::Allocated
                    invariant
                        jj <= j <= len,
                        len == self.entries@.len() == e0.len(),
                        forall|k: int|
                            0 <= k < len ==> (#[trigger] self.entries@[k]).state == e0[k].state,
                        forall|k: int|
                            jj <= k < j ==> (#[trigger] e0[k]).state == EntryState::Allocated,
                    decreases len - j,
                {
                    j = j + 1;
                }
                if j < len {
                    let ghost before = self.entries@;
                    self.entries.set(
                        j,
                        Entry {
                            state: EntryState::Free,
                            start: b as u16,
                            blocks: (e - b) as u16,
                            locked: false,
                        },
                    );
                    assert(forall|k: int|
                        0 <= k < len && k != j ==> #[trigger] self.entries@[k] == before[k]);
                    j = j + 1;
                    assert forall|t: int, m: int|
                        #[trigger] maximal_run(s, t, m) && t < (if e < n { e + 1 } else { n as int })
                            implies exists|k: int|
                        0 <= k < j && (#[trigger] self.entries@[k]).state == EntryState::Free
                            && self.entries@[k].start == t && self.entries@[k].blocks == m by {
                        if t >= b {
                            assert(self.entries@[j - 1].start == t);
                        } else {
                            let k = choose|k: int|
                                0 <= k < j - 1 && (#[trigger] before[k]).state == EntryState::Free
                                    && before[k].start == t && before[k].blocks == m;
                            assert(self.entries@[k] == before[k]);
                        }
                    }
                    b = if e < n {
                        e + 1
                    } else {
                        n
                    };
                } else {
                    b = n;
                }
            }
        }
        proof {
            let ee = self.entries@;
            if exists|i: int|
                0 <= i < ee.len() && (#[trigger] ee[i]).state == EntryState::Free && ee[i].blocks
                    == 0 {
                let i = choose|i: int|
                    0 <= i < ee.len() && (#[trigger] ee[i]).state == EntryState::Free
                        && ee[i].blocks == 0;
                assert(i >= j);
                assert forall|t: int, m: int| #[trigger] maximal_run(s, t, m) implies exists|k: int|
                    0 <= k < ee.len() && (#[trigger] ee[k]).state == EntryState::Free
                        && ee[k].start == t && ee[k].blocks == m by {
                    assert(t < b);
                }
            }
        }
    }

    /// Moves every allocated run towards block 0, in block order, leaving one
    /// free run at the end; then rebuilds the free hints as `clean` does.
    /// Handles stay valid: runs are found through their slot. Refused while
    /// any guard is held.
    #[verifier::rlimit(50)]
    pub fn defrag(&mut self) -> (r: Result<(), DefragError>)
        requires
            old(self).wf(),
        ensures
            final(self).wf(),
            final(self).capacity() == old(self).capacity(),
            final(self).cache_len() == old(self).cache_len(),
            final(self).table().len() == old(self).table().len(),
            r is Err <==> exists|i: int|
                0 <= i < old(self).table().len() && (#[trigger] old(self).table()[i]).locked,
            r is Err ==> r == Err::<(), DefragError>(DefragError::GuardHeld) && final(self).table()
                == old(self).table() && final(self).owners() == old(self).owners()
                && final(self).words() == old(self).words(),
            r is Ok ==> old(self).relocated(&*final(self)),
    {
        let len = self.entries.len();
        let mut i: usize = 0;
        while i < len
            invariant
                *self == *old(self),
                old(self).wf(),
                len == self.entries@.len(),
                i <= len,
                forall|k: int| 0 <= k < i ==> !(#[trigger] self.entries@[k]).locked,
            decreases len - i,
        {
            if self.entries[i].locked {
                return Err(DefragError::GuardHeld);
            }
            i = i + 1;
        }
        let n = self.nblocks as usize;
        let ghost s = self.owner@;
        let ghost a = self.arena@;
        let ghost e0 = self.entries@;
        let mut new_arena: Vec<u32> = Vec::new();
        let mut new_owner: Vec<Option<u16>> = Vec::new();
        let mut b: usize = 0;
        assert(s.subrange(0, 0) =~= Seq::<Option<u16>>::empty());
        while b < n
            invariant
                old(self).wf(),
                self.owner@ == s,
                s == old(self).owner@,
                self.arena@ == a,
                a == old(self).arena@,
                e0 == old(self).entries@,
                self.nblocks == old(self).nblocks,
                self.cache == old(self).cache,
                self.free_blocks == old(self).free_blocks,
                n == self.nblocks as nat == s.len(),
                a.len() == n * 4,
                len == self.entries@.len() == e0.len() <= 65535,
                b <= n,
                new_owner@.len() <= b,
                new_arena@.len() == new_owner@.len() * 4,
                count_free(new_owner@) == 0,
                new_owner@.len() + count_free(s.subrange(0, b as int)) == b,
                forall|k: int| 0 <= k < len ==> !(#[trigger] e0[k]).locked,
                forall|k: int|
                    0 <= k < len && (#[trigger] e0[k]).state == EntryState::Allocated && e0[k].blocks
                        > 0 && e0[k].start < b ==> e0[k].start + e0[k].blocks <= b,
                forall|k: int|
                    0 <= k < len ==> (#[trigger] self.entries@[k]).state == e0[k].state
                        && self.entries@[k].blocks == e0[k].blocks && self.entries@[k].locked
                        == e0[k].locked,
                forall|k: int|
                    0 <= k < len && !(e0[k].state == EntryState::Allocated && e0[k].blocks > 0
                        && e0[k].start < b) ==> #[trigger] self.entries@[k] == e0[k],
                forall|k: int|
                    0 <= k < len && (#[trigger] e0[k]).state == EntryState::Allocated && e0[k].blocks
                        > 0 && e0[k].start < b ==> {
                        let st = self.entries@[k].start as int;
                        let bl = e0[k].blocks as int;
                        &&& st + bl <= new_owner@.len()
                        &&& new_arena@.subrange(st * 4, (st + bl) * 4) == a.subrange(
                            e0[k].start as int * 4,
                            (e0[k].start + bl) * 4,
                        )
                        &&& forall|x: int| st <= x < st + bl ==> new_owner@[x] == Some(k as u16)
                    },
                forall|x: int|
                    0 <= x < new_owner@.len() ==> (#[trigger] new_owner@[x]) is Some && {
                        let k = new_owner@[x]->Some_0 as int;
                        &&& 0 <= k < len
                        &&& e0[k].state == EntryState::Allocated
                        &&& e0[k].blocks > 0
                        &&& e0[k].start < b
                        &&& self.entries@[k].start <= x < self.entries@[k].start + e0[k].blocks
                    },
            decreases n - b,
        {
            match self.owner[b] {
                None => {
                    proof {
                        lemma_count_free_prefix(s, b as int);
                        assert forall|k: int|
                            0 <= k < len && (#[trigger] e0[k]).state == EntryState::Allocated
                                && e0[k].blocks > 0 && e0[k].start == b implies false by {
                            assert(s[b as int] == Some(k as u16));
                        }
                    }
                    b = b + 1;
                },
                Some(slot) => {
                    let i = slot as usize;
                    proof {
                        assert(s[b as int] is Some);
                    }
                    let e = self.entries[i];
                    assert(e == e0[i as int]);
                    let k = e.blocks as usize;
                    let w = new_owner.len();
                    let ghost na0 = new_arena@;
                    let ghost no0 = new_owner@;
                    let ghost en0 = self.entries@;
                    push_blocks(&mut new_arena, &self.arena, b, k);
                    push_owner(&mut new_owner, Some(slot), k);
                    self.entries.set(i, Entry { start: w as u16, ..e });
                    proof {
                        assert forall|x: int| b <= x < b + k implies (#[trigger] s[x]) is Some by {
                            assert(s[x] == Some(i as u16));
                        }
                        lemma_count_free_prefix_owned(s, b as int, k as int);
                        assert forall|j: int| 0 <= j < new_owner@.len() implies (
                        #[trigger] new_owner@[j]) is Some by {
                            if j >= w {
                                assert(new_owner@[j] == Some(slot));
                            } else {
                                assert(new_owner@[j] == no0[j]);
                            }
                        }
                        lemma_count_free_none(new_owner@);
                        assert forall|j: int|
                            0 <= j < len && (#[trigger] e0[j]).state == EntryState::Allocated
                                && e0[j].blocks > 0 && b <= e0[j].start < b + k implies j == i by {
                            assert(s[e0[j].start as int] == Some(j as u16));
                            assert(s[e0[j].start as int] == Some(i as u16));
                        }
                        assert forall|j: int|
                            0 <= j < len && (#[trigger] e0[j]).state == EntryState::Allocated
                                && e0[j].blocks > 0 && e0[j].start < b + k implies {
                            let st = self.entries@[j].start as int;
                            let bl = e0[j].blocks as int;
                            &&& st + bl <= new_owner@.len()
                            &&& new_arena@.subrange(st * 4, (st + bl) * 4) == a.subrange(
                                e0[j].start as int * 4,
                                (e0[j].start + bl) * 4,
                            )
                            &&& forall|x: int| st <= x < st + bl ==> new_owner@[x] == Some(j as u16)
                        } by {
                            let st = self.entries@[j].start as int;
                            let bl = e0[j].blocks as int;
                            if j == i {
                                assert(new_arena@.subrange(st * 4, (st + bl) * 4) =~= a.subrange(
                                    e0[j].start as int * 4,
                                    (e0[j].start + bl) * 4,
                                ));
                            } else {
                                assert(en0[j] == self.entries@[j]);
                                assert(new_arena@.subrange(st * 4, (st + bl) * 4) =~= na0.subrange(
                                    st * 4,
                                    (st + bl) * 4,
                                ));
                                assert forall|x: int| st <= x < st + bl implies new_owner@[x]
                                    == Some(j as u16) by {
                                    assert(new_owner@[x] == no0[x]);
                                }
                            }
                        }
                        assert forall|x: int| 0 <= x < new_owner@.len() implies (
                        #[trigger] new_owner@[x]) is Some && {
                            let kk = new_owner@[x]->Some_0 as int;
                            &&& 0 <= kk < len
                            &&& e0[kk].state == EntryState::Allocated
                            &&& e0[kk].blocks > 0
                            &&& e0[kk].start < b + k
                            &&& self.entries@[kk].start <= x < self.entries@[kk].start
                                + e0[kk].blocks
                        } by {
                            if x < w {
                                assert(new_owner@[x] == no0[x]);
                                let kk = no0[x]->Some_0 as int;
                                if kk != i {
                                    assert(en0[kk] == self.entries@[kk]);
                                }
                            } else {
                                assert(new_owner@[x] == Some(slot));
                            }
                        }
                    }
                    b = b + k;
                },
            }
        }
        let w = new_owner.len();
        assert(s.subrange(0, n as int) =~= s);
        let ghost no1 = new_owner@;
        let ghost na1 = new_arena@;
        push_owner(&mut new_owner, None, n - w);
        let mut z: usize = 0;
        while z < (n - w) * 4
            invariant
                w <= n <= 65535,
                z <= (n - w) * 4,
                new_arena@.len() == w * 4 + z,
                new_arena@.subrange(0, w * 4) == na1,
            decreases (n - w) * 4 - z,
        {
            new_arena.push(0);
            z = z + 1;
            assert(new_arena@.subrange(0, w * 4) =~= na1);
        }
        proof {
            lemma_count_free_tail(no1, (n - w) as nat);
            assert forall|k: int|
                0 <= k < len && (#[trigger] e0[k]).state == EntryState::Allocated && e0[k].blocks
                    > 0 implies {
                let st = self.entries@[k].start as int;
                let bl = e0[k].blocks as int;
                &&& new_arena@.subrange(st * 4, (st + bl) * 4) == a.subrange(
                    e0[k].start as int * 4,
                    (e0[k].start + bl) * 4,
                )
            } by {
                let st = self.entries@[k].start as int;
                let bl = e0[k].blocks as int;
                assert(new_arena@.subrange(st * 4, (st + bl) * 4) =~= na1.subrange(
                    st * 4,
                    (st + bl) * 4,
                ));
            }
        }
        self.arena = new_arena;
        self.owner = new_owner;
        proof {
            let o = self.owner@;
            let en = self.entries@;
            assert forall|x: int| 0 <= x < o.len() && (#[trigger] o[x]) is Some implies {
                let i = o[x]->Some_0 as int;
                &&& 0 <= i < en.len()
                &&& en[i].state == EntryState::Allocated
                &&& en[i].start <= x < en[i].start + en[i].blocks
            } by {
                if x >= w {
                    assert(o[x] is None);
                } else {
                    assert(o[x] == no1[x]);
                }
            }
            assert forall|i: int, x: int|
                0 <= i < en.len() && (#[trigger] en[i]).state == EntryState::Allocated
                    && en[i].start <= x < en[i].start + en[i].blocks implies #[trigger] o[x]
                == Some(i as u16) by {
                assert(e0[i].blocks > 0);
                assert(o[x] == no1[x]);
            }
            assert forall|x: int| 0 <= x < o.len() implies ((#[trigger] o[x]) is None <==> x
                >= o.len() - count_free(o)) by {
                if x < w {
                    assert(o[x] == no1[x]);
                }
            }
            assert(forall|i: int|
                0 <= i < en.len() ==> (#[trigger] en[i]).start + en[i].blocks <= n);
        }
        let ghost mid = self.entries@;
        let ghost wmid = self.arena@;
        assert forall|k: int|
            0 <= k < len && (#[trigger] e0[k]).state == EntryState::Allocated implies {
            &&& mid[k].state == e0[k].state
            &&& mid[k].blocks == e0[k].blocks
            &&& mid[k].locked == e0[k].locked
            &&& wmid.subrange(mid[k].start as int * 4, (mid[k].start + mid[k].blocks) as int * 4)
                == a.subrange(e0[k].start as int * 4, (e0[k].start + e0[k].blocks) as int * 4)
        } by {
            if e0[k].blocks == 0 {
                assert(wmid.subrange(mid[k].start as int * 4, mid[k].start as int * 4)
                    =~= a.subrange(e0[k].start as int * 4, e0[k].start as int * 4));
            }
        }
        self.clean();
        assert forall|i: int| 0 <= i < len implies {
            let e = e0[i];
            let f = #[trigger] self.entries@[i];
            &&& f.state == e.state
            &&& f.locked == e.locked
            &&& e.state == EntryState::Allocated ==> f.blocks == e.blocks && self.arena@.subrange(
                f.start as int * 4,
                (f.start + f.blocks) as int * 4,
            ) == a.subrange(e.start as int * 4, (e.start + e.blocks) as int * 4)
        } by {
            if e0[i].state == EntryState::Allocated {
                assert(self.entries@[i] == mid[i]);
            }
        }
        Ok(())
    }

    /// Returns the run of the allocated slot `slot` to the free blocks.
    fn unclaim(&mut self, slot: usize)
        requires
            old(self).wf(),
            slot < old(self).table().len(),
            old(self).table()[slot as int].state == EntryState::Allocated,
        ensures
            final(self).wf(),
            final(self).capacity() == old(self).capacity(),
            final(self).cache_len() == old(self).cache_len(),
            final(self).words() == old(self).words(),
            final(self).table() == old(self).table().update(
                slot as int,
                Entry {
                    state: EntryState::Free,
                    start: old(self).table()[slot as int].start,
                    blocks: old(self).table()[slot as int].blocks,
                    locked: false,
                },
            ),
            final(self).owners() == set_range(
                old(self).owners(),
                old(self).table()[slot as int].start as int,
                old(self).table()[slot as int].blocks as int,
                None,
            ),
            count_free(final(self).owners()) == count_free(old(self).owners()) + old(
                self,
            ).table()[slot as int].blocks,
    {
        let ghost s0 = self.owner@;
        let e0 = self.entries[slot];
        let start = e0.start as usize;
        let n = e0.blocks as usize;
        let mut k: usize = 0;
        proof {
            lemma_count_free_le(s0);
        }
        assert(self.owner@ =~= set_range(s0, start as int, 0, None));
        while k < n
            invariant
                s0 == old(self).owner@,
                self.entries@ == old(self).entries@,
                self.arena@ == old(self).arena@,
                self.nblocks == old(self).nblocks,
                self.cache == old(self).cache,
                slot < self.entries@.len() <= 65535,
                e0 == self.entries@[slot as int],
                e0.state == EntryState::Allocated,
                start == e0.start,
                n == e0.blocks,
                start + n <= s0.len(),
                s0.len() == self.nblocks as nat,
                forall|b: int| start <= b < start + n ==> #[trigger] s0[b] == Some(slot as u16),
                k <= n,
                self.owner@ == set_range(s0, start as int, k as int, None),
                self.free_blocks as nat == count_free(self.owner@),
                self.free_blocks as nat == old(self).free_blocks + k,
                count_free(self.owner@) <= s0.len(),
            decreases n - k,
        {
            proof {
                lemma_count_free_update(self.owner@, (start + k) as int, None);
                lemma_count_free_le(self.owner@.update((start + k) as int, None));
            }
            self.owner.set(start + k, None);
            self.free_blocks = self.free_blocks + 1;
            k = k + 1;
            assert(self.owner@ =~= set_range(s0, start as int, k as int, None));
        }
        self.entries.set(
            slot,
            Entry { state: EntryState::Free, start: e0.start, blocks: e0.blocks, locked: false },
        );
        let ghost e = self.entries@;
        let ghost o = self.owner@;
        assert(o =~= set_range(s0, start as int, n as int, None));
        assert forall|b: int| 0 <= b < o.len() && (#[trigger] o[b]) is Some implies {
            let i = o[b]->Some_0 as int;
            &&& 0 <= i < e.len()
            &&& e[i].state == EntryState::Allocated
            &&& e[i].start <= b < e[i].start + e[i].blocks
        } by {
            assert(s0[b] == o[b]);
        }
        assert forall|i: int, b: int|
            0 <= i < e.len() && (#[trigger] e[i]).state == EntryState::Allocated && e[i].start
                <= b < e[i].start + e[i].blocks implies #[trigger] o[b] == Some(i as u16) by {
            assert(old(self).entries@[i] == e[i]);
            assert(s0[b] == Some(i as u16));
        }
    }

    /// Gives the handle's run back to the pool. A handle that names no
    /// allocated slot changes nothing.
    pub fn release(&mut self, h: SliceHandle) -> (r: bool)
        requires
            old(self).wf(),
        ensures
            final(self).wf(),
            final(self).capacity() == old(self).capacity(),
            final(self).cache_len() == old(self).cache_len(),
            final(self).words() == old(self).words(),
            r == old(self).valid_handle(&h),
            r ==> count_free(final(self).owners()) == count_free(old(self).owners())
                + old(self).table()[h.slot() as int].blocks,
            !r ==> final(self).table() == old(self).table() && final(self).owners()
                == old(self).owners(),
            r ==> {
                let e = old(self).table()[h.slot() as int];
                &&& final(self).table() == old(self).table().update(
                    h.slot() as int,
                    Entry { state: EntryState::Free, start: e.start, blocks: e.blocks, locked: false },
                )
                &&& final(self).owners() == set_range(
                    old(self).owners(),
                    e.start as int,
                    e.blocks as int,
                    None,
                )
            },
    {
        if !self.handle_ok(&h) {
            return false;
        }
        self.unclaim(h.index as usize);
        true
    }

    /// Whether the handle names an allocated slot of this pool that holds it.
    pub fn valid_handle_exec(&self, h: &SliceHandle) -> (r: bool)
        requires
            self.wf(),
        ensures
            r == self.valid_handle(h),
    {
        self.handle_ok(h)
    }

    fn handle_ok(&self, h: &SliceHandle) -> (r: bool)
        requires
            self.wf(),
        ensures
            r == self.valid_handle(h),
    {
        (h.index as usize) < self.entries.len() && self.entries[h.index as usize].state
            == EntryState::Allocated && h.len as usize <= self.entries[h.index as usize].blocks as usize
            * ELEMS_PER_BLOCK
    }

    fn guard_ok(&self, g: &Guard) -> (r: bool)
        requires
            self.wf(),
        ensures
            r == self.valid_guard(g),
    {
        (g.index as usize) < self.entries.len() && self.entries[g.index as usize].state
            == EntryState::Allocated && self.entries[g.index as usize].locked && g.len as usize
            <= self.entries[g.index as usize].blocks as usize * ELEMS_PER_BLOCK
    }

    /// Takes the handle's single guard.
    pub fn lock(&mut self, h: &SliceHandle) -> (r: Result<Guard, LockError>)
        requires
            old(self).wf(),
        ensures
            final(self).wf(),
            final(self).capacity() == old(self).capacity(),
            final(self).cache_len() == old(self).cache_len(),
            final(self).words() == old(self).words(),
            final(self).owners() == old(self).owners(),
            !old(self).valid_handle(h) ==> r == Err::<Guard, LockError>(LockError::InvalidHandle),
            old(self).valid_handle(h) && old(self).table()[h.slot() as int].locked ==> r == Err::<
                Guard,
                LockError,
            >(LockError::AlreadyLocked),
            old(self).valid_handle(h) && !old(self).table()[h.slot() as int].locked ==> r is Ok,
            r is Err ==> final(self).table() == old(self).table(),
            r matches Ok(g) ==> {
                let e = old(self).table()[h.slot() as int];
                &&& g.slot() == h.slot()
                &&& g.elems() == h.elems()
                &&& final(self).valid_guard(&g)
                &&& final(self).table() == old(self).table().update(
                    h.slot() as int,
                    Entry { locked: true, ..e },
                )
                &&& final(self).guard_contents(&g) == old(self).contents(h)
            },
    {
        if !self.handle_ok(h) {
            return Err(LockError::InvalidHandle);
        }
        let i = h.index as usize;
        let e = self.entries[i];
        if e.locked {
            return Err(LockError::AlreadyLocked);
        }
        self.entries.set(i, Entry { locked: true, ..e });
        assert(forall|k: int|
            0 <= k < self.entries@.len() ==> (#[trigger] self.entries@[k]).state
                == old(self).entries@[k].state && self.entries@[k].start == old(self).entries@[k].start
                && self.entries@[k].blocks == old(self).entries@[k].blocks);
        Ok(Guard { index: h.index, len: h.len })
    }

    /// Gives the guard back, so the handle may be locked again.
    pub fn unlock(&mut self, g: Guard) -> (r: Result<(), LockError>)
        requires
            old(self).wf(),
        ensures
            final(self).wf(),
            final(self).capacity() == old(self).capacity(),
            final(self).cache_len() == old(self).cache_len(),
            final(self).words() == old(self).words(),
            final(self).owners() == old(self).owners(),
            r is Ok <==> old(self).valid_guard(&g),
            r is Err ==> r == Err::<(), LockError>(LockError::NotLocked) && final(self).table()
                == old(self).table(),
            r is Ok ==> final(self).table() == old(self).table().update(
                g.slot() as int,
                Entry { locked: false, ..old(self).table()[g.slot() as int] },
            ),
    {
        if !self.guard_ok(&g) {
            return Err(LockError::NotLocked);
        }
        let i = g.index as usize;
        let e = self.entries[i];
        self.entries.set(i, Entry { locked: false, ..e });
        assert(forall|k: int|
            0 <= k < self.entries@.len() ==> (#[trigger] self.entries@[k]).state
                == old(self).entries@[k].state && self.entries@[k].start == old(self).entries@[k].start
                && self.entries@[k].blocks == old(self).entries@[k].blocks);
        Ok(())
    }

    /// Reads element `i` through a held guard.
    pub fn get(&self, g: &Guard, i: u16) -> (r: Result<u32, LockError>)
        requires
            self.wf(),
        ensures
            !self.valid_guard(g) ==> r == Err::<u32, LockError>(LockError::NotLocked),
            self.valid_guard(g) && i >= g.elems() ==> r == Err::<u32, LockError>(
                LockError::OutOfBounds,
            ),
            self.valid_guard(g) && i < g.elems() ==> r == Ok::<u32, LockError>(
                self.guard_contents(g)[i as int],
            ),
    {
        if !self.guard_ok(g) {
            return Err(LockError::NotLocked);
        }
        if i >= g.len {
            return Err(LockError::OutOfBounds);
        }
        let s = self.entries[g.index as usize].start as usize * ELEMS_PER_BLOCK;
        Ok(self.arena[s + i as usize])
    }

    /// Writes element `i` through a held guard.
    pub fn set(&mut self, g: &Guard, i: u16, v: u32) -> (r: Result<(), LockError>)
        requires
            old(self).wf(),
        ensures
            final(self).wf(),
            final(self).capacity() == old(self).capacity(),
            final(self).cache_len() == old(self).cache_len(),
            final(self).owners() == old(self).owners(),
            final(self).table() == old(self).table(),
            !old(self).valid_guard(g) ==> r == Err::<(), LockError>(LockError::NotLocked),
            old(self).valid_guard(g) && i >= g.elems() ==> r == Err::<(), LockError>(
                LockError::OutOfBounds,
            ),
            r is Err ==> final(self).words() == old(self).words(),
            old(self).valid_guard(g) && i < g.elems() ==> {
                &&& r is Ok
                &&& final(self).words() == old(self).words().update(
                    old(self).table()[g.slot() as int].start as int * 4 + i,
                    v,
                )
                &&& final(self).guard_contents(g) == old(self).guard_contents(g).update(i as int, v)
            },
    {
        if !self.guard_ok(g) {
            return Err(LockError::NotLocked);
        }
        if i >= g.len {
            return Err(LockError::OutOfBounds);
        }
        let s = self.entries[g.index as usize].start as usize * ELEMS_PER_BLOCK;
        self.arena.set(s + i as usize, v);
        assert(self.guard_contents(g) =~= old(self).guard_contents(g).update(i as int, v));
        Ok(())
    }

    /// Copies out every element reachable through a held guard.
    pub fn to_vec(&self, g: &Guard) -> (r: Result<Vec<u32>, LockError>)
        requires
            self.wf(),
        ensures
            !self.valid_guard(g) ==> r == Err::<Vec<u32>, LockError>(LockError::NotLocked),
            self.valid_guard(g) ==> (r matches Ok(v) && v@ == self.guard_contents(g)),
    {
        if !self.guard_ok(g) {
            return Err(LockError::NotLocked);
        }
        let s = self.entries[g.index as usize].start as usize * ELEMS_PER_BLOCK;
        let mut out: Vec<u32> = Vec::new();
        let mut k: usize = 0;
        while k < g.len as usize
            invariant
                self.wf(),
                self.valid_guard(g),
                s == self.entries@[g.slot() as int].start as int * 4,
                k <= g.elems(),
                out@ == self.guard_contents(g).subrange(0, k as int),
            decreases g.len - k,
        {
            out.push(self.arena[s + k]);
            k = k + 1;
            assert(out@ =~= self.guard_contents(g).subrange(0, k as int));
        }
        assert(out@ =~= self.guard_contents(g));
        Ok(out)
    }

    /// For diagnostics: the owning slot of every block, `None` where free.
    pub fn occupancy(&self) -> (r: Vec<Option<u16>>)
        requires
            self.wf(),
        ensures
            r@ == self.owners(),
    {
        let mut out: Vec<Option<u16>> = Vec::new();
        let mut b: usize = 0;
        while b < self.owner.len()
            invariant
                b <= self.owner@.len(),
                out@ == self.owner@.subrange(0, b as int),
            decreases self.owner@.len() - b,
        {
            out.push(self.owner[b]);
            b = b + 1;
            assert(out@ =~= self.owner@.subrange(0, b as int));
        }
        assert(out@ =~= self.owner@);
        out
    }

    /// The index entry in slot `slot`, if the table has that slot.
    pub fn entry(&self, slot: IndexLoc) -> (r: Option<Entry>)
        requires
            self.wf(),
        ensures
            slot < self.table().len() ==> r == Some(self.table()[slot as int]),
            slot >= self.table().len() ==> r is None,
    {
        if (slot as usize) < self.entries.len() {
            Some(self.entries[slot as usize])
        } else {
            None
        }
    }

    /// Number of free blocks.
    pub fn free_blocks(&self) -> (r: u16)
        requires
            self.wf(),
        ensures
            r == count_free(self.owners()),
    {
        self.free_blocks
    }
}

/// A live guard's elements lie inside the arena.
pub proof fn lemma_guard_in_arena(p: &Pool, g: &Guard)
    requires
        p.wf(),
        p.valid_guard(g),
    ensures
        p.table()[g.slot() as int].start as int * 4 + g.elems() <= p.words().len(),
        p.guard_contents(g).len() == g.elems(),
{
    let e = p.entries@[g.index as int];
    assert(e.start + e.blocks <= p.nblocks);
}

/// A live handle's elements lie inside the arena.
pub proof fn lemma_handle_in_arena(p: &Pool, h: &SliceHandle)
    requires
        p.wf(),
        p.valid_handle(h),
    ensures
        p.table()[h.slot() as int].start as int * 4 + h.elems() <= p.words().len(),
        p.contents(h).len() == h.elems(),
{
    let e = p.entries@[h.index as int];
    assert(e.start + e.blocks <= p.nblocks);
}

/// Allocation leaves every live handle live, with its elements.
pub proof fn lemma_keeps_allocated_preserves(pre: &Pool, post: &Pool)
    requires
        pre.wf(),
        keeps_allocated(pre, post),
        post.words() == pre.words(),
    ensures
        preserves_handles(pre, post),
{
    assert forall|h: SliceHandle| #[trigger] pre.valid_handle(&h) implies post.valid_handle(&h)
        && post.contents(&h) == pre.contents(&h) by {
        assert(pre.table()[h.slot() as int].state == EntryState::Allocated);
    }
}

/// `defrag` leaves every live handle live, with its elements.
pub proof fn lemma_relocated_preserves(pre: &Pool, post: &Pool)
    requires
        pre.wf(),
        post.wf(),
        pre.relocated(post),
    ensures
        preserves_handles(pre, post),
{
    assert forall|h: SliceHandle| #[trigger] pre.valid_handle(&h) implies post.valid_handle(&h)
        && post.contents(&h) == pre.contents(&h) by {
        defrag_keeps_handle_contents(pre, post, &h);
    }
}

/// Writing only inside the elements of `h` leaves every other live handle
/// with its elements.
pub proof fn lemma_write_frame(pre: &Pool, post: &Pool, h: &SliceHandle)
    requires
        pre.wf(),
        pre.valid_handle(h),
        post.table() == pre.table(),
        post.words().len() == pre.words().len(),
        forall|x: int|
            0 <= x < pre.words().len() && !(pre.table()[h.slot() as int].start as int * 4 <= x
                < pre.table()[h.slot() as int].start as int * 4 + h.elems()) ==> #[trigger] post.words()[x]
                == pre.words()[x],
    ensures
        preserves_other_handles(pre, post, h.slot()),
{
    assert forall|h2: SliceHandle| #[trigger] pre.valid_handle(&h2) && h2.slot() != h.slot()
        implies post.valid_handle(&h2) && post.contents(&h2) == pre.contents(&h2) by {
        live_handles_disjoint(pre, h, &h2);
        lemma_handle_in_arena(pre, &h2);
        let s2 = pre.table()[h2.slot() as int].start as int * 4;
        assert forall|y: int| 0 <= y < h2.elems() implies #[trigger] post.words()[s2 + y]
            == pre.words()[s2 + y] by {}
        assert(post.contents(&h2) =~= pre.contents(&h2));
    }
}

/// The runs of two distinct live handles never overlap.
pub proof fn live_handles_disjoint(p: &Pool, h1: &SliceHandle, h2: &SliceHandle)
    requires
        p.wf(),
        p.valid_handle(h1),
        p.valid_handle(h2),
        h1.slot() != h2.slot(),
    ensures
        ({
            let e1 = p.table()[h1.slot() as int];
            let e2 = p.table()[h2.slot() as int];
            e1.blocks == 0 || e2.blocks == 0 || e1.start + e1.blocks <= e2.start || e2.start
                + e2.blocks <= e1.start
        }),
{
    let e1 = p.entries@[h1.index as int];
    let e2 = p.entries@[h2.index as int];
    if !(e1.blocks == 0 || e2.blocks == 0 || e1.start + e1.blocks <= e2.start || e2.start
        + e2.blocks <= e1.start) {
        let x: int = if e1.start >= e2.start { e1.start as int } else { e2.start as int };
        assert(p.owner@[x] == Some(h1.index));
        assert(p.owner@[x] == Some(h2.index));
    }
}

/// An element written through a guard is what the guard reads back; the
/// other elements are untouched.
pub proof fn write_then_read(pre: &Pool, post: &Pool, g: &Guard, i: int, v: u32)
    requires
        pre.wf(),
        pre.valid_guard(g),
        0 <= i < g.elems(),
        post.table() == pre.table(),
        post.words() == pre.words().update(pre.table()[g.slot() as int].start as int * 4 + i, v),
    ensures
        post.guard_contents(g)[i] == v,
        forall|j: int|
            0 <= j < g.elems() && j != i ==> #[trigger] post.guard_contents(g)[j]
                == pre.guard_contents(g)[j],
{
}

/// A handle sees the same elements after `clean` as before.
pub proof fn clean_keeps_handle_contents(pre: &Pool, post: &Pool, h: &SliceHandle)
    requires
        pre.wf(),
        pre.cleaned(post),
        pre.valid_handle(h),
    ensures
        post.valid_handle(h),
        post.contents(h) == pre.contents(h),
{
    assert(post.table()[h.slot() as int] == pre.table()[h.slot() as int]);
}

/// A handle stays valid across `defrag` and sees the same elements, though
/// its run may start elsewhere.
pub proof fn defrag_keeps_handle_contents(pre: &Pool, post: &Pool, h: &SliceHandle)
    requires
        pre.wf(),
        post.wf(),
        pre.relocated(post),
        pre.valid_handle(h),
    ensures
        post.valid_handle(h),
        post.contents(h) == pre.contents(h),
{
    let i = h.index as int;
    let e = pre.entries@[i];
    let f = post.entries@[i];
    assert(post.table()[i] == f);
    let bs = post.arena@.subrange(f.start as int * 4, (f.start + f.blocks) as int * 4);
    let be = pre.arena@.subrange(e.start as int * 4, (e.start + e.blocks) as int * 4);
    assert(bs == be);
    assert(post.contents(h) =~= bs.subrange(0, h.len as int));
    assert(pre.contents(h) =~= be.subrange(0, h.len as int));
}

/// Allocated and free blocks together always make up the arena, and a block
/// is allocated exactly when it lies in the run of an allocated slot.
pub proof fn conservation(p: &Pool)
    requires
        p.wf(),
    ensures
        count_owned(p.owners()) + count_free(p.owners()) == p.capacity(),
        forall|b: int|
            0 <= b < p.capacity() ==> ((#[trigger] p.owners()[b]) is Some <==> exists|i: int|
                0 <= i < p.table().len() && (#[trigger] p.table()[i]).state
                    == EntryState::Allocated && p.table()[i].start <= b < p.table()[i].start
                    + p.table()[i].blocks),
{
    lemma_owned_plus_free(p.owner@);
    assert forall|b: int| 0 <= b < p.capacity() implies ((#[trigger] p.owners()[b]) is Some
        <==> exists|i: int|
        0 <= i < p.table().len() && (#[trigger] p.table()[i]).state == EntryState::Allocated
            && p.table()[i].start <= b < p.table()[i].start + p.table()[i].blocks) by {
        if p.owner@[b] is Some {
            let i = p.owner@[b]->Some_0 as int;
            assert(p.table()[i].state == EntryState::Allocated);
        }
        if exists|i: int|
            0 <= i < p.table().len() && (#[trigger] p.table()[i]).state == EntryState::Allocated
                && p.table()[i].start <= b < p.table()[i].start + p.table()[i].blocks {
            let i = choose|i: int|
                0 <= i < p.table().len() && (#[trigger] p.table()[i]).state
                    == EntryState::Allocated && p.table()[i].start <= b < p.table()[i].start
                    + p.table()[i].blocks;
            assert(p.owner@[b] == Some(i as u16));
        }
    }
}

/// The exhaustive search is at least as capable as the fast one on the same
/// pool: where the fast path succeeds so does it, and where the fast path
/// reports `Fragmented` it never reports `OutOfMemory`.
pub proof fn fast_path_conservative(p: &Pool, n: int)
    requires
        p.wf(),
        n >= 0,
    ensures
        fast_outcome(p.owners(), p.table(), p.cache_len() as int, n) == Some(
            AllocError::Fragmented,
        ) ==> exhaustive_outcome(p.owners(), p.table(), n) != Some(AllocError::OutOfMemory),
        fast_outcome(p.owners(), p.table(), p.cache_len() as int, n) is None ==> exhaustive_outcome(
            p.owners(),
            p.table(),
            n,
        ) is None,
{
    if fast_outcome(p.owners(), p.table(), p.cache_len() as int, n) is None {
        let i = choose|i: int|
            0 <= i < p.cache_len() && usable_hint(p.owners(), p.table(), i, n);
        assert(run_free(p.owners(), p.table()[i].start as int, n));
        assert(p.table()[i].state == EntryState::Free);
    }
}

/// After `defrag`, any request that fits in the free blocks finds a run.
pub proof fn compacted_never_fragmented(p: &Pool, n: int)
    requires
        p.wf(),
        compacted(p.owners()),
        0 <= n <= count_free(p.owners()),
    ensures
        has_run(p.owners(), n),
        exhaustive_outcome(p.owners(), p.table(), n) != Some(AllocError::Fragmented),
{
    let s = p.owners();
    lemma_count_free_le(s);
    let t = s.len() - count_free(s);
    assert(run_free(s, t, n));
}

/// Releasing a handle frees exactly its own run: every other block keeps its
/// state, and every other live handle keeps its elements.
pub proof fn release_frees_own_span(pre: &Pool, post: &Pool, h: &SliceHandle, other: &SliceHandle)
    requires
        pre.wf(),
        pre.valid_handle(h),
        post.words() == pre.words(),
        post.table() == pre.table().update(
            h.slot() as int,
            Entry {
                state: EntryState::Free,
                start: pre.table()[h.slot() as int].start,
                blocks: pre.table()[h.slot() as int].blocks,
                locked: false,
            },
        ),
        post.owners() == set_range(
            pre.owners(),
            pre.table()[h.slot() as int].start as int,
            pre.table()[h.slot() as int].blocks as int,
            None,
        ),
    ensures
        forall|b: int|
            0 <= b < pre.capacity() ==> ((#[trigger] post.owners()[b]) is None <==> (
            pre.owners()[b] is None || pre.owners()[b] == Some(h.slot() as u16))),
        pre.valid_handle(other) && other.slot() != h.slot() ==> post.valid_handle(other)
            && post.contents(other) == pre.contents(other),
{
    let e = pre.entries@[h.index as int];
    assert forall|b: int| 0 <= b < pre.capacity() implies ((#[trigger] post.owners()[b]) is None
        <==> (pre.owners()[b] is None || pre.owners()[b] == Some(h.slot() as u16))) by {
        if pre.owner@[b] == Some(h.index) {
            assert(e.start <= b < e.start + e.blocks);
        }
        if e.start <= b < e.start + e.blocks {
            assert(pre.owner@[b] == Some(h.index));
        }
    }
}

} // verus!
